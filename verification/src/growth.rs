//! How tall trees grow: a tree into which keys were only bound has all its leaves on one
//! level, and at least twice as many entries for each level more.
//!
//! Removing leaves under-full nodes in place, so that a tree from which keys were removed
//! is no longer even: its height is then bounded by what it was.

use vstd::prelude::*;

use crate::index_batch::pow2;
use crate::patch::{branch_halves, inserted, join, leaf_halves, one, over, removed, rewritten, run, topped,
    Parts};
use crate::sorted::{concat, lemma_concat_at, upsert};
use crate::tree::{flat, flats, height, lemma_flat, lemma_height_bound, lemma_height_kids, max_height,
    slot_of, Tree};

verus! {

/// Every leaf is on level `d` and holds an entry, every node above has two children.
pub open spec fn even(t: Tree, d: nat) -> bool
    decreases t,
{
    match t {
        Tree::Leaf { entries } => d == 1 && entries.len() > 0,
        Tree::Internal { seps, kids } => {
            &&& d > 1
            &&& kids.len() == seps.len() + 1
            &&& kids.len() >= 2
            &&& forall|i: int| 0 <= i < kids.len() ==> even(#[trigger] kids[i], (d - 1) as nat)
        },
    }
}

/// All parts are even.
pub open spec fn all_even(p: Parts, d: nat) -> bool {
    &&& p.trees.len() == p.seps.len() + 1
    &&& forall|i: int| 0 <= i < p.trees.len() ==> even(#[trigger] p.trees[i], d)
}

/// One entry makes an even tree.
pub proof fn first_entry_is_even(k: Seq<u8>, v: Seq<u8>)
    ensures
        even((Tree::Leaf { entries: seq![(k, v)] }), 1),
{
}

/// An even tree has as many levels as it says, and at least twice the entries for each
/// of them beyond the first.
pub proof fn even_tree_is_low(t: Tree, d: nat)
    requires
        even(t, d),
    ensures
        d >= 1,
        height(t) == d,
        flat(t).len() >= pow2((d - 1) as nat),
    decreases t,
{
    if let Tree::Internal { seps, kids } = t {
        assert forall|i: int| 0 <= i < kids.len() implies height(#[trigger] kids[i]) == d - 1
            && flat(kids[i]).len() >= pow2((d - 2) as nat) by {
            even_tree_is_low(kids[i], (d - 1) as nat);
        }
        lemma_height_bound(seps, kids, (d - 1) as nat);
        lemma_height_kids(seps, kids);
        assert(height(kids[0]) < height(t));
        lemma_flat(seps, kids);
        let fs = flats(kids);
        lemma_two_parts(fs);
        assert(fs[0] == flat(kids[0]) && fs[1] == flat(kids[1]));
        assert(d >= 2);
        assert(pow2((d - 1) as nat) == 2 * pow2((d - 2) as nat));
    }
}

/// The first two of a concatenation are part of it.
proof fn lemma_two_parts(fs: Seq<Seq<(Seq<u8>, Seq<u8>)>>)
    requires
        fs.len() >= 2,
    ensures
        concat(fs).len() >= fs[0].len() + fs[1].len(),
    decreases fs.len(),
{
    let p = fs.drop_last();
    if fs.len() == 2 {
        let q = p.drop_last();
        assert(q =~= Seq::empty());
        assert(concat(q) =~= Seq::empty());
        assert(p.last() == fs[0] && fs.last() == fs[1]);
        assert(concat(p) == concat(q) + p.last());
        assert(concat(fs) == concat(p) + fs.last());
    } else {
        lemma_two_parts(p);
        assert(p[0] == fs[0] && p[1] == fs[1]);
        assert(concat(fs) == concat(p) + fs.last());
    }
}

proof fn lemma_pow2_grows(a: nat, b: nat)
    requires
        a <= b,
    ensures
        1 <= pow2(a) <= pow2(b),
    decreases b,
{
    if a < b {
        lemma_pow2_grows(a, (b - 1) as nat);
    } else if b > 0 {
        lemma_pow2_grows((a - 1) as nat, (b - 1) as nat);
    }
}

/// An even tree that a machine can count is within the levels that a reader descends.
pub proof fn even_tree_is_within_reach(t: Tree, d: nat)
    requires
        even(t, d),
        flat(t).len() <= u64::MAX,
    ensures
        height(t) <= 64,
        height(t) < max_height(),
{
    even_tree_is_low(t, d);
    if d > 64 {
        lemma_pow2_grows(64, (d - 1) as nat);
        assert(pow2(64) == 0x1_0000_0000_0000_0000) by {
            reveal_with_fuel(pow2, 65);
        }
    }
}

proof fn lemma_slot_range(seps: Seq<Seq<u8>>, k: Seq<u8>)
    ensures
        0 <= slot_of(seps, k) <= seps.len(),
    decreases seps.len(),
{
    if seps.len() > 0 {
        lemma_slot_range(seps.drop_last(), k);
    }
}

/// Binding a key keeps the parts of a tree even.
proof fn lemma_inserted_even(t: Tree, k: Seq<u8>, v: Seq<u8>, order: nat, d: nat)
    requires
        even(t, d),
        order >= 2,
    ensures
        all_even(inserted(t, k, v, order), d),
        1 <= inserted(t, k, v, order).trees.len() <= 2,
    decreases t,
{
    match t {
        Tree::Leaf { entries } => {
            let es = upsert(entries, k, v);
            let mid = es.len() as int / 2;
            if es.len() > order {
                assert(leaf_halves(es.take(mid), es.len()) == one(
                    Tree::Leaf { entries: es.take(mid) },
                ));
                assert(leaf_halves(es.skip(mid), es.len()) == one(
                    Tree::Leaf { entries: es.skip(mid) },
                ));
            }
        },
        Tree::Internal { seps, kids } => {
            let c = slot_of(seps, k);
            lemma_slot_range(seps, k);
            lemma_inserted_even(kids[c], k, v, order, (d - 1) as nat);
            let q = inserted(kids[c], k, v, order);
            let p = rewritten(seps, kids, c, q);
            let n = p.seps.len() as int;
            assert forall|i: int| 0 <= i < p.trees.len() implies even(
                #[trigger] p.trees[i],
                (d - 1) as nat,
            ) by {
                if i < c {
                    assert(p.trees[i] == kids[i]);
                } else if i < c + q.trees.len() {
                    assert(p.trees[i] == q.trees[i - c]);
                } else {
                    assert(p.trees[i] == kids[i - q.trees.len() + 1]);
                }
            }
            assert(all_even(p, (d - 1) as nat));
            if n > order {
                let mid = n / 2;
                let l = run(p, 0, mid);
                let r = run(p, mid + 1, n);
                assert(branch_halves(l, n as nat) == one(over(l)));
                assert(branch_halves(r, n as nat) == one(over(r)));
                assert forall|i: int| 0 <= i < l.trees.len() implies even(
                    #[trigger] l.trees[i],
                    (d - 1) as nat,
                ) by {
                    assert(l.trees[i] == p.trees[i]);
                }
                assert forall|i: int| 0 <= i < r.trees.len() implies even(
                    #[trigger] r.trees[i],
                    (d - 1) as nat,
                ) by {
                    assert(r.trees[i] == p.trees[mid + 1 + i]);
                }
                assert(even(over(l), d) && even(over(r), d));
                let w = join(one(over(l)), p.seps[mid], one(over(r)));
                assert(inserted(t, k, v, order) == w);
                assert forall|i: int| 0 <= i < w.trees.len() implies even(
                    #[trigger] w.trees[i],
                    d,
                ) by {
                    assert(i == 0 || i == 1);
                }
            } else {
                assert(even(over(p), d));
            }
        },
    }
}

/// Binding a key keeps a tree even, with at most one level more: so a tree into which keys
/// were only bound stays within the levels that a reader descends.
pub proof fn insert_keeps_even(t: Tree, k: Seq<u8>, v: Seq<u8>, order: nat, d: nat)
    requires
        even(t, d),
        order >= 2,
    ensures
        even(topped(inserted(t, k, v, order)), d) || even(
            topped(inserted(t, k, v, order)),
            d + 1,
        ),
{
    lemma_inserted_even(t, k, v, order, d);
    even_tree_is_low(t, d);
}

// ---------------------------------------------------------------------------
// Removal
// ---------------------------------------------------------------------------

/// Every leaf holds an entry, and every node above has a child.
pub open spec fn stocked(t: Tree) -> bool
    decreases t,
{
    match t {
        Tree::Leaf { entries } => entries.len() > 0,
        Tree::Internal { seps, kids } => {
            &&& kids.len() > 0
            &&& forall|i: int| 0 <= i < kids.len() ==> stocked(#[trigger] kids[i])
        },
    }
}

/// An even tree is stocked.
pub proof fn even_is_stocked(t: Tree, d: nat)
    requires
        even(t, d),
    ensures
        stocked(t),
    decreases t,
{
    if let Tree::Internal { seps, kids } = t {
        assert forall|i: int| 0 <= i < kids.len() implies stocked(#[trigger] kids[i]) by {
            even_is_stocked(kids[i], (d - 1) as nat);
        }
    }
}

/// A stocked tree lists something.
pub proof fn stocked_lists_something(t: Tree)
    requires
        stocked(t),
    ensures
        flat(t).len() > 0,
    decreases t,
{
    if let Tree::Internal { seps, kids } = t {
        lemma_flat(seps, kids);
        stocked_lists_something(kids[0]);
        lemma_concat_at(flats(kids), 0);
        assert(flats(kids)[0] == flat(kids[0]));
    }
}

/// Removing a key leaves a stocked tree stocked, or nothing of it.
pub proof fn remove_keeps_stocked(t: Tree, k: Seq<u8>)
    requires
        stocked(t),
    ensures
        removed(t, k) matches Some(w) ==> stocked(w),
    decreases t,
{
    if let Tree::Internal { seps, kids } = t {
        let c = slot_of(seps, k);
        if 0 <= c < kids.len() {
            remove_keeps_stocked(kids[c], k);
            let left = kids.remove(c);
            assert forall|i: int| 0 <= i < left.len() implies stocked(#[trigger] left[i]) by {
                assert(left[i] == if i < c { kids[i] } else { kids[i + 1] });
            }
            if let Some(w) = removed(kids[c], k) {
                let now = kids.update(c, w);
                assert forall|i: int| 0 <= i < now.len() implies stocked(#[trigger] now[i]) by {
                    assert(i != c ==> now[i] == kids[i]);
                }
            } else if kids.len() == 2 {
                assert(stocked(left[0]));
            }
        }
    }
}

} // verus!
