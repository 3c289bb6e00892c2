//! The mathematical tree behind a root id.
//!
//! Nodes name their children by content id, so a tree and the order it was
//! written with determine its id; a set of payloads holds the tree when it
//! holds the payload of every node.

use vstd::prelude::*;

use crate::bytes::{lemma_lex_order, lex_lt};
use crate::chunk::{digest, zero_id};
use crate::node::{encodable, inner_encodable, leaf_encodable, node_bytes, node_bytes_injective, node_ok,
    NodeView};
use crate::sorted::{all_ge, all_gt, all_lt, concat, increasing, lemma_concat_at,
    lemma_sorted_join, sorted};

verus! {

/// A tree of nodes: `kids[i]` holds the keys between `seps[i - 1]` (inclusive)
/// and `seps[i]` (exclusive).
pub enum Tree {
    Leaf { entries: Seq<(Seq<u8>, Seq<u8>)> },
    Internal { seps: Seq<Seq<u8>>, kids: Seq<Tree> },
}

/// The internal node with these separators and child ids.
pub open spec fn inner_view(seps: Seq<Seq<u8>>, ids: Seq<Seq<u8>>) -> NodeView {
    NodeView::Internal {
        first: ids[0],
        entries: Seq::new(seps.len(), |i: int| (seps[i], ids[i + 1])),
    }
}

/// The payload of the root node of `t`.
pub open spec fn tree_bytes(t: Tree, order: u16) -> Seq<u8>
    decreases t, 0nat,
{
    match t {
        Tree::Leaf { entries } => node_bytes(NodeView::Leaf { entries }, order),
        Tree::Internal { seps, kids } => node_bytes(
            inner_view(seps, ids_upto(kids, kids.len(), order)),
            order,
        ),
    }
}

/// The content ids of the first `n` trees.
pub open spec fn ids_upto(kids: Seq<Tree>, n: nat, order: u16) -> Seq<Seq<u8>>
    decreases kids, n,
{
    if n == 0 || n > kids.len() {
        Seq::empty()
    } else {
        ids_upto(kids, (n - 1) as nat, order).push(digest(tree_bytes(kids[n - 1], order)))
    }
}

/// The content id of `t`.
pub open spec fn tree_id(t: Tree, order: u16) -> Seq<u8> {
    digest(tree_bytes(t, order))
}

pub open spec fn tree_ids(kids: Seq<Tree>, order: u16) -> Seq<Seq<u8>> {
    Seq::new(kids.len(), |i: int| tree_id(kids[i], order))
}

/// The root node of `t`.
pub open spec fn node_of(t: Tree, order: u16) -> NodeView {
    match t {
        Tree::Leaf { entries } => NodeView::Leaf { entries },
        Tree::Internal { seps, kids } => inner_view(seps, tree_ids(kids, order)),
    }
}

/// The entries of `t` in key order.
pub open spec fn flat(t: Tree) -> Seq<(Seq<u8>, Seq<u8>)>
    decreases t, 0nat,
{
    match t {
        Tree::Leaf { entries } => entries,
        Tree::Internal { seps, kids } => flat_upto(kids, kids.len()),
    }
}

/// The entries of the first `n` trees.
pub open spec fn flat_upto(kids: Seq<Tree>, n: nat) -> Seq<(Seq<u8>, Seq<u8>)>
    decreases kids, n,
{
    if n == 0 || n > kids.len() {
        Seq::empty()
    } else {
        flat_upto(kids, (n - 1) as nat) + flat(kids[n - 1])
    }
}

pub open spec fn flats(kids: Seq<Tree>) -> Seq<Seq<(Seq<u8>, Seq<u8>)>> {
    Seq::new(kids.len(), |i: int| flat(kids[i]))
}

/// `payloads` holds every node of `t`.
pub open spec fn stored(payloads: Set<Seq<u8>>, t: Tree, order: u16) -> bool
    decreases t,
{
    &&& payloads.contains(tree_bytes(t, order))
    &&& t matches Tree::Internal { seps, kids } ==> forall|i: int|
        0 <= i < kids.len() ==> stored(payloads, #[trigger] kids[i], order)
}

/// The number of levels.
pub open spec fn height(t: Tree) -> nat
    decreases t, 0nat,
{
    match t {
        Tree::Leaf { .. } => 1,
        Tree::Internal { seps, kids } => 1 + height_upto(kids, kids.len()),
    }
}

/// The greatest height among the first `n` trees.
pub open spec fn height_upto(kids: Seq<Tree>, n: nat) -> nat
    decreases kids, n,
{
    if n == 0 || n > kids.len() {
        0
    } else if height(kids[n - 1]) > height_upto(kids, (n - 1) as nat) {
        height(kids[n - 1])
    } else {
        height_upto(kids, (n - 1) as nat)
    }
}

/// Counts and lengths within what a reader with this fanout limit accepts.
pub open spec fn sized(t: Tree, max_fanout: u32) -> bool
    decreases t,
{
    match t {
        Tree::Leaf { entries } => {
            &&& leaf_encodable(entries)
            &&& entries.len() <= max_fanout
            &&& entries.len() <= u16::MAX
        },
        Tree::Internal { seps, kids } => {
            &&& kids.len() == seps.len() + 1
            &&& seps_encodable(seps)
            &&& seps.len() <= max_fanout
            &&& seps.len() <= u16::MAX
            &&& forall|i: int| 0 <= i < kids.len() ==> sized(#[trigger] kids[i], max_fanout)
        },
    }
}

pub open spec fn seps_encodable(seps: Seq<Seq<u8>>) -> bool {
    forall|i: int| 0 <= i < seps.len() ==> (#[trigger] seps[i]).len() <= u16::MAX
}

/// Keys, values and separators fit the node format's length prefixes.
pub open spec fn coded(t: Tree) -> bool
    decreases t,
{
    match t {
        Tree::Leaf { entries } => leaf_encodable(entries),
        Tree::Internal { seps, kids } => {
            &&& kids.len() == seps.len() + 1
            &&& seps_encodable(seps)
            &&& forall|i: int| 0 <= i < kids.len() ==> coded(#[trigger] kids[i])
        },
    }
}

/// Keys strictly increase inside every node.
pub open spec fn keyed(t: Tree) -> bool
    decreases t,
{
    match t {
        Tree::Leaf { entries } => sorted(entries),
        Tree::Internal { seps, kids } => {
            &&& kids.len() == seps.len() + 1
            &&& increasing(seps)
            &&& forall|i: int| 0 <= i < kids.len() ==> keyed(#[trigger] kids[i])
        },
    }
}

/// Every key of `s` is at or above `lo` and below `hi`.
pub open spec fn within<V>(
    s: Seq<(Seq<u8>, V)>,
    lo: Option<Seq<u8>>,
    hi: Option<Seq<u8>>,
) -> bool {
    &&& lo is Some ==> all_ge(s, lo->0)
    &&& hi is Some ==> all_lt(s, hi->0)
}

/// `k` is at or above `lo` and below `hi`.
pub open spec fn covers(lo: Option<Seq<u8>>, hi: Option<Seq<u8>>, k: Seq<u8>) -> bool {
    &&& lo is Some ==> !lex_lt(k, lo->0)
    &&& hi is Some ==> lex_lt(k, hi->0)
}

/// `k` is strictly between the bounds.
pub open spec fn inside(lo: Option<Seq<u8>>, hi: Option<Seq<u8>>, k: Seq<u8>) -> bool {
    &&& lo is Some ==> lex_lt(lo->0, k)
    &&& hi is Some ==> lex_lt(k, hi->0)
}

pub open spec fn seps_inside(
    seps: Seq<Seq<u8>>,
    lo: Option<Seq<u8>>,
    hi: Option<Seq<u8>>,
) -> bool {
    forall|i: int| 0 <= i < seps.len() ==> inside(lo, hi, #[trigger] seps[i])
}

/// The lower bound of child `i`.
pub open spec fn kid_lo(seps: Seq<Seq<u8>>, lo: Option<Seq<u8>>, i: int) -> Option<Seq<u8>> {
    if i == 0 {
        lo
    } else {
        Some(seps[i - 1])
    }
}

/// The upper bound of child `i`.
pub open spec fn kid_hi(seps: Seq<Seq<u8>>, hi: Option<Seq<u8>>, i: int) -> Option<Seq<u8>> {
    if i < seps.len() {
        Some(seps[i])
    } else {
        hi
    }
}

/// A search tree for the keys between `lo` and `hi`.
pub open spec fn ordered(t: Tree, lo: Option<Seq<u8>>, hi: Option<Seq<u8>>) -> bool
    decreases t,
{
    match t {
        Tree::Leaf { entries } => sorted(entries) && within(entries, lo, hi),
        Tree::Internal { seps, kids } => {
            &&& kids.len() == seps.len() + 1
            &&& increasing(seps)
            &&& seps_inside(seps, lo, hi)
            &&& forall|i: int|
                0 <= i < kids.len() ==> ordered(
                    #[trigger] kids[i],
                    kid_lo(seps, lo, i),
                    kid_hi(seps, hi, i),
                )
        },
    }
}

/// How many separators are at or below `k`: the child to search for it.
pub open spec fn slot_of(seps: Seq<Seq<u8>>, k: Seq<u8>) -> int
    decreases seps.len(),
{
    if seps.len() == 0 {
        0
    } else if !lex_lt(k, seps.last()) {
        seps.len() as int
    } else {
        slot_of(seps.drop_last(), k)
    }
}

/// No two payloads share a digest, and none has the digest that stands for
/// "no object".
pub open spec fn clash_free(payloads: Set<Seq<u8>>) -> bool {
    &&& forall|a: Seq<u8>, b: Seq<u8>|
        #![trigger payloads.contains(a), payloads.contains(b)]
        payloads.contains(a) && payloads.contains(b) && digest(a) == digest(b) ==> a
            == b
    &&& forall|a: Seq<u8>| #[trigger] payloads.contains(a) ==> digest(a) != zero_id()
}

/// The tree at `id`: held in full, a search tree between the bounds, and within
/// the reader's limits.
pub open spec fn holds(
    payloads: Set<Seq<u8>>,
    id: Seq<u8>,
    t: Tree,
    order: u16,
    max_fanout: u32,
    lo: Option<Seq<u8>>,
    hi: Option<Seq<u8>>,
) -> bool {
    &&& id == tree_id(t, order)
    &&& stored(payloads, t, order)
    &&& sized(t, max_fanout)
    &&& ordered(t, lo, hi)
}

/// The most levels that a reader descends.
pub open spec fn max_height() -> nat {
    129
}

/// The tree at `root` lists `s`: the zero id is the empty tree. `h` bounds the
/// number of levels.
pub open spec fn lists(
    payloads: Set<Seq<u8>>,
    root: Seq<u8>,
    order: u16,
    max_fanout: u32,
    h: nat,
    s: Seq<(Seq<u8>, Seq<u8>)>,
) -> bool {
    if root == zero_id() {
        s.len() == 0
    } else {
        exists|t: Tree|
            #[trigger] holds(payloads, root, t, order, max_fanout, None, None) && height(t) <= h
                && flat(t) == s
    }
}

// ---------------------------------------------------------------------------
// Unfolding
// ---------------------------------------------------------------------------

proof fn lemma_ids_upto(kids: Seq<Tree>, n: nat, order: u16)
    requires
        n <= kids.len(),
    ensures
        ids_upto(kids, n, order) == tree_ids(kids, order).take(n as int),
    decreases n,
{
    if n > 0 {
        lemma_ids_upto(kids, (n - 1) as nat, order);
    }
    assert(ids_upto(kids, n, order) =~= tree_ids(kids, order).take(n as int));
}

pub proof fn lemma_node_of(t: Tree, order: u16)
    ensures
        tree_bytes(t, order) == node_bytes(node_of(t, order), order),
{
    if let Tree::Internal { seps, kids } = t {
        lemma_ids_upto(kids, kids.len(), order);
        assert(tree_ids(kids, order).take(kids.len() as int) =~= tree_ids(kids, order));
    }
}

proof fn lemma_flat_upto(kids: Seq<Tree>, n: nat)
    requires
        n <= kids.len(),
    ensures
        flat_upto(kids, n) == concat(flats(kids).take(n as int)),
    decreases n,
{
    if n > 0 {
        lemma_flat_upto(kids, (n - 1) as nat);
        assert(flats(kids).take(n as int).drop_last() =~= flats(kids).take(n - 1));
    }
}

pub proof fn lemma_flat(seps: Seq<Seq<u8>>, kids: Seq<Tree>)
    ensures
        flat((Tree::Internal { seps, kids })) == concat(flats(kids)),
{
    lemma_flat_upto(kids, kids.len());
    assert(flats(kids).take(kids.len() as int) =~= flats(kids));
}

pub proof fn lemma_stored_mono(p: Set<Seq<u8>>, q: Set<Seq<u8>>, t: Tree, order: u16)
    requires
        stored(p, t, order),
        p.subset_of(q),
    ensures
        stored(q, t, order),
    decreases t,
{
    if let Tree::Internal { seps, kids } = t {
        assert forall|i: int| 0 <= i < kids.len() implies stored(
            q,
            #[trigger] kids[i],
            order,
        ) by {
            lemma_stored_mono(p, q, kids[i], order);
        }
    }
}

proof fn lemma_height_upto(kids: Seq<Tree>, n: nat, h: nat)
    requires
        n <= kids.len(),
    ensures
        forall|i: int| 0 <= i < n ==> height(#[trigger] kids[i]) <= height_upto(kids, n),
        (forall|i: int| 0 <= i < n ==> height(#[trigger] kids[i]) <= h) ==> height_upto(kids, n)
            <= h,
    decreases n,
{
    if n > 0 {
        lemma_height_upto(kids, (n - 1) as nat, h);
    }
}

/// Children are lower than their parent.
pub proof fn lemma_height_kids(seps: Seq<Seq<u8>>, kids: Seq<Tree>)
    ensures
        forall|i: int|
            0 <= i < kids.len() ==> height(#[trigger] kids[i]) < height(
                (Tree::Internal { seps, kids }),
            ),
{
    lemma_height_upto(kids, kids.len(), 0);
}

pub proof fn lemma_height_bound(seps: Seq<Seq<u8>>, kids: Seq<Tree>, h: nat)
    requires
        forall|i: int| 0 <= i < kids.len() ==> height(#[trigger] kids[i]) <= h,
    ensures
        height((Tree::Internal { seps, kids })) <= h + 1,
{
    lemma_height_upto(kids, kids.len(), h);
}

/// `lo2 <= lo` and `hi <= hi2`, with no bound as the widest.
pub open spec fn wider(
    lo: Option<Seq<u8>>,
    hi: Option<Seq<u8>>,
    lo2: Option<Seq<u8>>,
    hi2: Option<Seq<u8>>,
) -> bool {
    &&& lo2 is Some ==> lo is Some && !lex_lt(lo->0, lo2->0)
    &&& hi2 is Some ==> hi is Some && !lex_lt(hi2->0, hi->0)
}

pub proof fn lemma_ordered_widen(
    t: Tree,
    lo: Option<Seq<u8>>,
    hi: Option<Seq<u8>>,
    lo2: Option<Seq<u8>>,
    hi2: Option<Seq<u8>>,
)
    requires
        ordered(t, lo, hi),
        wider(lo, hi, lo2, hi2),
    ensures
        ordered(t, lo2, hi2),
    decreases t,
{
    lemma_lex_order();
    if let Tree::Internal { seps, kids } = t {
        assert forall|i: int| 0 <= i < kids.len() implies ordered(
            #[trigger] kids[i],
            kid_lo(seps, lo2, i),
            kid_hi(seps, hi2, i),
        ) by {
            assert(ordered(kids[i], kid_lo(seps, lo, i), kid_hi(seps, hi, i)));
            lemma_ordered_widen(
                kids[i],
                kid_lo(seps, lo, i),
                kid_hi(seps, hi, i),
                kid_lo(seps, lo2, i),
                kid_hi(seps, hi2, i),
            );
        }
    }
}

pub proof fn lemma_within_concat<V>(
    ss: Seq<Seq<(Seq<u8>, V)>>,
    lo: Option<Seq<u8>>,
    hi: Option<Seq<u8>>,
)
    requires
        forall|i: int| 0 <= i < ss.len() ==> within(#[trigger] ss[i], lo, hi),
    ensures
        within(concat(ss), lo, hi),
    decreases ss.len(),
{
    if ss.len() > 0 {
        let p = ss.drop_last();
        assert forall|i: int| 0 <= i < p.len() implies within(#[trigger] p[i], lo, hi) by {
            assert(p[i] == ss[i]);
        }
        lemma_within_concat(p, lo, hi);
        let last = ss[ss.len() - 1];
        let c = concat(p);
        let all = concat(ss);
        assert forall|i: int| 0 <= i < all.len() && lo is Some implies !lex_lt(
            (#[trigger] all[i]).0,
            lo->0,
        ) by {
            if i < c.len() {
                assert(all[i] == c[i]);
            } else {
                assert(all[i] == last[i - c.len()]);
            }
        }
        assert forall|i: int| 0 <= i < all.len() && hi is Some implies lex_lt(
            (#[trigger] all[i]).0,
            hi->0,
        ) by {
            if i < c.len() {
                assert(all[i] == c[i]);
            } else {
                assert(all[i] == last[i - c.len()]);
            }
        }
    }
}

/// The children up to `n` hold the keys from `lo` to the separator behind them.
proof fn lemma_prefix_flat(
    seps: Seq<Seq<u8>>,
    kids: Seq<Tree>,
    lo: Option<Seq<u8>>,
    hi: Option<Seq<u8>>,
    n: int,
)
    requires
        ordered((Tree::Internal { seps, kids }), lo, hi),
        1 <= n <= kids.len(),
        forall|i: int|
            0 <= i < kids.len() ==> sorted(#[trigger] flats(kids)[i]) && within(
                flats(kids)[i],
                kid_lo(seps, lo, i),
                kid_hi(seps, hi, i),
            ),
    ensures
        sorted(concat(flats(kids).take(n))),
        within(concat(flats(kids).take(n)), lo, kid_hi(seps, hi, n - 1)),
    decreases n,
{
    lemma_lex_order();
    let fs = flats(kids);
    let p = fs.take(n - 1);
    assert(fs.take(n).drop_last() =~= p);
    let last = fs[n - 1];
    if n == 1 {
        assert(concat(p) =~= Seq::empty());
        assert(concat(fs.take(n)) =~= last);
    } else {
        lemma_prefix_flat(seps, kids, lo, hi, n - 1);
        let c = concat(p);
        let all = concat(fs.take(n));
        lemma_sorted_join(c, last, seps[n - 2]);
        assert(all =~= c + last);
        assert(inside(lo, hi, seps[n - 2]));
        assert(inside(lo, kid_hi(seps, hi, n - 1), seps[n - 2]));
        assert forall|i: int| 0 <= i < all.len() && lo is Some implies !lex_lt(
            (#[trigger] all[i]).0,
            lo->0,
        ) by {
            if i < c.len() {
                assert(all[i] == c[i]);
            } else {
                assert(all[i] == last[i - c.len()]);
            }
        }
        let h = kid_hi(seps, hi, n - 1);
        assert forall|i: int| 0 <= i < all.len() && h is Some implies lex_lt(
            (#[trigger] all[i]).0,
            h->0,
        ) by {
            if i < c.len() {
                assert(all[i] == c[i]);
            } else {
                assert(all[i] == last[i - c.len()]);
            }
        }
    }
}

/// A search tree lists its entries in order, between its bounds.
pub proof fn lemma_ordered_flat(t: Tree, lo: Option<Seq<u8>>, hi: Option<Seq<u8>>)
    requires
        ordered(t, lo, hi),
    ensures
        sorted(flat(t)),
        within(flat(t), lo, hi),
    decreases t,
{
    if let Tree::Internal { seps, kids } = t {
        lemma_flat(seps, kids);
        assert forall|i: int| 0 <= i < kids.len() implies sorted(#[trigger] flats(kids)[i])
            && within(flats(kids)[i], kid_lo(seps, lo, i), kid_hi(seps, hi, i)) by {
            assert(ordered(kids[i], kid_lo(seps, lo, i), kid_hi(seps, hi, i)));
            lemma_ordered_flat(kids[i], kid_lo(seps, lo, i), kid_hi(seps, hi, i));
        }
        lemma_prefix_flat(seps, kids, lo, hi, kids.len() as int);
        assert(flats(kids).take(kids.len() as int) =~= flats(kids));
    }
}

pub proof fn lemma_ordered_keyed(t: Tree, lo: Option<Seq<u8>>, hi: Option<Seq<u8>>)
    requires
        ordered(t, lo, hi),
    ensures
        keyed(t),
    decreases t,
{
    if let Tree::Internal { seps, kids } = t {
        assert forall|i: int| 0 <= i < kids.len() implies keyed(#[trigger] kids[i]) by {
            assert(ordered(kids[i], kid_lo(seps, lo, i), kid_hi(seps, hi, i)));
            lemma_ordered_keyed(kids[i], kid_lo(seps, lo, i), kid_hi(seps, hi, i));
        }
    }
}

/// The root node of a tree within the limits reads back.
pub proof fn lemma_node_ok(t: Tree, order: u16, max_fanout: u32)
    requires
        sized(t, max_fanout),
        keyed(t),
    ensures
        node_ok(node_of(t, order), max_fanout),
{
    if let Tree::Internal { seps, kids } = t {
        let ids = tree_ids(kids, order);
        let es = node_of(t, order)->Internal_entries;
        assert(ids[0] == tree_id(kids[0], order));
        assert forall|i: int| 0 <= i < es.len() implies (#[trigger] es[i]).0.len() <= u16::MAX
            && es[i].1.len() == 32 by {
            assert(es[i] == (seps[i], ids[i + 1]));
            assert(ids[i + 1] == tree_id(kids[i + 1], order));
        }
        assert forall|i: int, j: int| #![trigger es[i], es[j]] 0 <= i < j < es.len() implies lex_lt(
            es[i].0,
            es[j].0,
        ) by {
            assert(es[i].0 == seps[i] && es[j].0 == seps[j]);
        }
        assert(inner_encodable(es));
    }
}

pub proof fn lemma_sized_coded(t: Tree, max_fanout: u32)
    requires
        sized(t, max_fanout),
    ensures
        coded(t),
    decreases t,
{
    if let Tree::Internal { seps, kids } = t {
        assert forall|i: int| 0 <= i < kids.len() implies coded(#[trigger] kids[i]) by {
            lemma_sized_coded(kids[i], max_fanout);
        }
    }
}

proof fn lemma_encodable(t: Tree, order: u16)
    requires
        coded(t),
    ensures
        encodable(node_of(t, order)),
{
    if let Tree::Internal { seps, kids } = t {
        let ids = tree_ids(kids, order);
        let es = node_of(t, order)->Internal_entries;
        assert(ids[0] == tree_id(kids[0], order));
        assert forall|i: int| 0 <= i < es.len() implies (#[trigger] es[i]).0.len() <= u16::MAX
            && es[i].1.len() == 32 by {
            assert(es[i] == (seps[i], ids[i + 1]));
            assert(ids[i + 1] == tree_id(kids[i + 1], order));
        }
        assert(inner_encodable(es));
    }
}

/// One id stands for one tree.
pub proof fn lemma_tree_unique(payloads: Set<Seq<u8>>, a: Tree, b: Tree, order: u16)
    requires
        clash_free(payloads),
        stored(payloads, a, order),
        stored(payloads, b, order),
        coded(a),
        coded(b),
        tree_id(a, order) == tree_id(b, order),
    ensures
        a == b,
    decreases a,
{
    lemma_node_of(a, order);
    lemma_node_of(b, order);
    lemma_encodable(a, order);
    lemma_encodable(b, order);
    assert(payloads.contains(tree_bytes(a, order)) && payloads.contains(tree_bytes(b, order)));
    node_bytes_injective(node_of(a, order), node_of(b, order), order);
    match (a, b) {
        (Tree::Internal { seps, kids }, Tree::Internal { seps: seps2, kids: kids2 }) => {
            let ids = tree_ids(kids, order);
            let ids2 = tree_ids(kids2, order);
            let es = node_of(a, order)->Internal_entries;
            let es2 = node_of(b, order)->Internal_entries;
            assert(es.len() == seps.len() && es2.len() == seps2.len());
            assert forall|i: int| 0 <= i < seps.len() implies seps[i] == seps2[i] by {
                assert(es[i] == (seps[i], ids[i + 1]));
                assert(es2[i] == (seps2[i], ids2[i + 1]));
            }
            assert(seps =~= seps2);
            assert forall|i: int| 0 <= i < kids.len() implies kids[i] == kids2[i] by {
                assert(ids[i] == tree_id(kids[i], order));
                assert(ids2[i] == tree_id(kids2[i], order));
                if i > 0 {
                    assert(es[i - 1] == (seps[i - 1], ids[i]));
                    assert(es2[i - 1] == (seps2[i - 1], ids2[i]));
                }
                lemma_tree_unique(payloads, kids[i], kids2[i], order);
            }
            assert(kids =~= kids2);
        },
        _ => {},
    }
}

proof fn lemma_encodable_concat(ss: Seq<Seq<(Seq<u8>, Seq<u8>)>>)
    requires
        forall|i: int| 0 <= i < ss.len() ==> leaf_encodable(#[trigger] ss[i]),
    ensures
        leaf_encodable(concat(ss)),
    decreases ss.len(),
{
    if ss.len() > 0 {
        let front = ss.drop_last();
        assert forall|i: int| 0 <= i < front.len() implies leaf_encodable(#[trigger] front[i]) by {
            assert(front[i] == ss[i]);
        }
        lemma_encodable_concat(front);
        assert(leaf_encodable(ss[ss.len() - 1]));
        let a = concat(front);
        let b = ss.last();
        assert forall|i: int| 0 <= i < (a + b).len() implies (#[trigger] (a + b)[i]).0.len()
            <= u16::MAX && (a + b)[i].1.len() <= u32::MAX by {
            if i < a.len() {
                assert((a + b)[i] == a[i]);
            } else {
                assert((a + b)[i] == b[i - a.len()]);
            }
        }
    }
}

/// The entries of a tree within its limits fit the node format's prefixes.
pub proof fn lemma_sized_flat(t: Tree, max_fanout: u32)
    requires
        sized(t, max_fanout),
    ensures
        leaf_encodable(flat(t)),
    decreases t,
{
    match t {
        Tree::Leaf { entries } => {},
        Tree::Internal { seps, kids } => {
            lemma_flat(seps, kids);
            let fs = flats(kids);
            assert forall|i: int| 0 <= i < fs.len() implies leaf_encodable(#[trigger] fs[i]) by {
                lemma_sized_flat(kids[i], max_fanout);
            }
            lemma_encodable_concat(fs);
        },
    }
}

/// A root lists one sequence: the entries of the one tree that it stands for.
pub proof fn lemma_lists_unique(
    payloads: Set<Seq<u8>>,
    root: Seq<u8>,
    order: u16,
    max_fanout: u32,
    h: nat,
    s: Seq<(Seq<u8>, Seq<u8>)>,
    t: Tree,
)
    requires
        clash_free(payloads),
        root != zero_id(),
        lists(payloads, root, order, max_fanout, h, s),
        holds(payloads, root, t, order, max_fanout, None, None),
    ensures
        flat(t) == s,
        height(t) <= h,
{
    let w = choose|w: Tree|
        #[trigger] holds(payloads, root, w, order, max_fanout, None, None) && height(w) <= h
            && flat(w) == s;
    lemma_sized_coded(w, max_fanout);
    lemma_sized_coded(t, max_fanout);
    lemma_tree_unique(payloads, w, t, order);
}

/// Whatever a root lists is in key order.
pub proof fn lemma_lists_sorted(
    payloads: Set<Seq<u8>>,
    root: Seq<u8>,
    order: u16,
    max_fanout: u32,
    h: nat,
    s: Seq<(Seq<u8>, Seq<u8>)>,
)
    requires
        lists(payloads, root, order, max_fanout, h, s),
    ensures
        sorted(s),
{
    if root != zero_id() {
        let t = choose|t: Tree|
            #[trigger] holds(payloads, root, t, order, max_fanout, None, None) && height(t) <= h
                && flat(t) == s;
        lemma_ordered_flat(t, None, None);
    }
}

/// The tree that `root` stands for.
pub open spec fn tree_at(
    payloads: Set<Seq<u8>>,
    root: Seq<u8>,
    order: u16,
    max_fanout: u32,
) -> Tree {
    choose|t: Tree| #[trigger] holds(payloads, root, t, order, max_fanout, None, None)
}

/// Whatever a root lists, it lists through the one tree that it stands for.
pub proof fn lemma_tree_at(payloads: Set<Seq<u8>>, root: Seq<u8>, order: u16, max_fanout: u32)
    requires
        clash_free(payloads),
        root != zero_id(),
    ensures
        forall|h: nat, s: Seq<(Seq<u8>, Seq<u8>)>| #[trigger]
            lists(payloads, root, order, max_fanout, h, s) ==> {
                let t = tree_at(payloads, root, order, max_fanout);
                &&& holds(payloads, root, t, order, max_fanout, None, None)
                &&& height(t) <= h
                &&& flat(t) == s
            },
{
    let t = tree_at(payloads, root, order, max_fanout);
    assert forall|h: nat, s: Seq<(Seq<u8>, Seq<u8>)>| #[trigger]
        lists(payloads, root, order, max_fanout, h, s) implies {
        &&& holds(payloads, root, t, order, max_fanout, None, None)
        &&& height(t) <= h
        &&& flat(t) == s
    } by {
        let w = choose|w: Tree|
            #[trigger] holds(payloads, root, w, order, max_fanout, None, None) && height(w) <= h
                && flat(w) == s;
        assert(holds(payloads, root, w, order, max_fanout, None, None));
        lemma_lists_unique(payloads, root, order, max_fanout, h, s, t);
    }
}

// ---------------------------------------------------------------------------
// Searching
// ---------------------------------------------------------------------------

pub proof fn lemma_slot(seps: Seq<Seq<u8>>, k: Seq<u8>)
    requires
        increasing(seps),
    ensures
        0 <= slot_of(seps, k) <= seps.len(),
        forall|i: int| 0 <= i < slot_of(seps, k) ==> !lex_lt(k, #[trigger] seps[i]),
        forall|i: int| slot_of(seps, k) <= i < seps.len() ==> lex_lt(k, #[trigger] seps[i]),
    decreases seps.len(),
{
    lemma_lex_order();
    if seps.len() > 0 {
        let p = seps.drop_last();
        lemma_slot(p, k);
        let c = slot_of(seps, k);
        assert forall|i: int| 0 <= i < c implies !lex_lt(k, #[trigger] seps[i]) by {
            if lex_lt(k, seps.last()) {
                assert(p[i] == seps[i]);
            } else if i < p.len() {
                assert(lex_lt(seps[i], seps[seps.len() - 1]));
            }
        }
        assert forall|i: int| c <= i < seps.len() implies lex_lt(k, #[trigger] seps[i]) by {
            if i < p.len() {
                assert(p[i] == seps[i]);
            }
        }
    }
}

/// The slot is the one position with separators at or below the key before it
/// and none behind.
pub proof fn lemma_slot_is(seps: Seq<Seq<u8>>, k: Seq<u8>, c: int)
    requires
        increasing(seps),
        0 <= c <= seps.len(),
        c > 0 ==> !lex_lt(k, seps[c - 1]),
        c < seps.len() ==> lex_lt(k, seps[c]),
    ensures
        slot_of(seps, k) == c,
{
    lemma_lex_order();
    lemma_slot(seps, k);
    let q = slot_of(seps, k);
    if q < c {
        assert(lex_lt(k, seps[q]));
        if q < c - 1 {
            assert(lex_lt(seps[q], seps[c - 1]));
        }
    } else if q > c {
        assert(!lex_lt(k, seps[c]));
    }
}

/// The entries before and behind the child that a key is routed to are below
/// and above the key.
pub proof fn lemma_route(
    seps: Seq<Seq<u8>>,
    kids: Seq<Tree>,
    lo: Option<Seq<u8>>,
    hi: Option<Seq<u8>>,
    k: Seq<u8>,
)
    requires
        ordered((Tree::Internal { seps, kids }), lo, hi),
    ensures
        ({
            let c = slot_of(seps, k);
            let a = concat(flats(kids).take(c));
            let z = concat(flats(kids).skip(c + 1));
            &&& 0 <= c < kids.len()
            &&& covers(lo, hi, k) ==> covers(kid_lo(seps, lo, c), kid_hi(seps, hi, c), k)
            &&& ordered(kids[c], kid_lo(seps, lo, c), kid_hi(seps, hi, c))
            &&& flat((Tree::Internal { seps, kids })) == a + flat(kids[c]) + z
            &&& sorted(a + flat(kids[c]) + z)
            &&& all_lt(a, k)
            &&& all_gt(z, k)
        }),
{
    lemma_lex_order();
    let t = Tree::Internal { seps, kids };
    lemma_slot(seps, k);
    let c = slot_of(seps, k);
    let fs = flats(kids);
    lemma_flat(seps, kids);
    lemma_concat_at(fs, c);
    lemma_ordered_flat(t, lo, hi);
    assert(fs[c] == flat(kids[c]));
    assert(ordered(kids[c], kid_lo(seps, lo, c), kid_hi(seps, hi, c)));
    let a = fs.take(c);
    let z = fs.skip(c + 1);
    if c > 0 {
        assert forall|i: int| 0 <= i < a.len() implies within(
            #[trigger] a[i],
            None,
            Some(seps[c - 1]),
        ) by {
            assert(ordered(kids[i], kid_lo(seps, lo, i), kid_hi(seps, hi, i)));
            lemma_ordered_flat(kids[i], kid_lo(seps, lo, i), kid_hi(seps, hi, i));
            assert(a[i] == flat(kids[i]));
            assert(i == c - 1 || lex_lt(seps[i], seps[c - 1]));
        }
        lemma_within_concat(a, None, Some(seps[c - 1]));
    } else {
        assert(concat(a) =~= Seq::empty());
    }
    if c + 1 < kids.len() {
        assert forall|i: int| 0 <= i < z.len() implies within(
            #[trigger] z[i],
            Some(seps[c]),
            None,
        ) by {
            let j = c + 1 + i;
            assert(ordered(kids[j], kid_lo(seps, lo, j), kid_hi(seps, hi, j)));
            lemma_ordered_flat(kids[j], kid_lo(seps, lo, j), kid_hi(seps, hi, j));
            assert(z[i] == flat(kids[j]));
            assert(i == 0 || lex_lt(seps[c], seps[j - 1]));
        }
        lemma_within_concat(z, Some(seps[c]), None);
    } else {
        assert(concat(z) =~= Seq::empty());
    }
}

} // verus!
