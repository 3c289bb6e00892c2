//! What a sorted batch makes of a tree: the nodes that stand in its place, and the
//! nodes that are written for them.

use vstd::prelude::*;

use crate::bytes::{lemma_lex_order, lex_lt};
use crate::index_batch::ops_encodable;
use crate::index_edit::{lemma_ordered_run, lemma_upsert_within};
use crate::node::leaf_encodable;
use crate::sorted::{all_gt, all_lt, already_holds, apply_ops, concat, erase, has_key,
    lemma_apply_context, lemma_apply_noop, lemma_apply_sorted, lemma_apply_split, lemma_concat_one,
    lemma_concat_split, lemma_lookup_apply, lemma_rank, lemma_rank_context, lemma_rank_is, lookup, rank, sorted, upsert};
use crate::tree::{covers, flat, flats, height, inside, kid_hi, kid_lo, lemma_flat,
    lemma_height_bound, lemma_height_kids, lemma_ordered_flat, lemma_ordered_widen, lemma_route,
    lemma_slot_is, lemma_stored_mono, lemma_within_concat, ordered, seps_encodable, sized,
    slot_of, stored,
    tree_bytes, within, Tree};

verus! {

/// The operations of a batch.
pub type Ops = Seq<(Seq<u8>, Option<Seq<u8>>)>;

/// Trees side by side, with a separator between each two: what stands in the place of
/// a rewritten tree. Without trees it is nothing.
pub struct Parts {
    pub seps: Seq<Seq<u8>>,
    pub trees: Seq<Tree>,
}

pub open spec fn no_parts() -> Parts {
    Parts { seps: Seq::empty(), trees: Seq::empty() }
}

pub open spec fn one(t: Tree) -> Parts {
    Parts { seps: Seq::empty(), trees: seq![t] }
}

/// The parts of `a`, and behind the separator those of `b`.
pub open spec fn join(a: Parts, cut: Seq<u8>, b: Parts) -> Parts {
    Parts { seps: a.seps.push(cut) + b.seps, trees: a.trees + b.trees }
}

/// As [`join`], where there may be nothing on either side.
pub open spec fn append(a: Parts, cut: Seq<u8>, b: Parts) -> Parts {
    if b.trees.len() == 0 {
        a
    } else if a.trees.len() == 0 {
        b
    } else {
        join(a, cut, b)
    }
}

/// The parts from `from` to `to`.
pub open spec fn run(p: Parts, from: int, to: int) -> Parts {
    Parts { seps: p.seps.subrange(from, to), trees: p.trees.subrange(from, to + 1) }
}

/// The node over the parts.
pub open spec fn over(p: Parts) -> Tree {
    Tree::Internal { seps: p.seps, kids: p.trees }
}

/// The most entries of a node that a reader accepts.
pub open spec fn node_limit(max_fanout: u32) -> nat {
    if max_fanout == 0 {
        1
    } else if max_fanout > u16::MAX {
        u16::MAX as nat
    } else {
        max_fanout as nat
    }
}

/// Leaves of at most `limit` entries, by halving.
pub open spec fn leaf_halves(es: Seq<(Seq<u8>, Seq<u8>)>, limit: nat) -> Parts
    decreases es.len(),
{
    if es.len() <= limit || es.len() < 2 {
        one(Tree::Leaf { entries: es })
    } else {
        let mid = es.len() as int / 2;
        join(leaf_halves(es.take(mid), limit), es[mid].0, leaf_halves(es.skip(mid), limit))
    }
}

/// A leaf that is over-full is split in two; a half that a reader would not accept is
/// halved further.
pub open spec fn split_leaf(es: Seq<(Seq<u8>, Seq<u8>)>, order: nat, limit: nat) -> Parts {
    if es.len() <= order {
        one(Tree::Leaf { entries: es })
    } else {
        let mid = es.len() as int / 2;
        join(leaf_halves(es.take(mid), limit), es[mid].0, leaf_halves(es.skip(mid), limit))
    }
}

/// Internal nodes of at most `limit` separators, by halving; the median moves up.
pub open spec fn branch_halves(p: Parts, limit: nat) -> Parts
    decreases p.seps.len(),
{
    let n = p.seps.len() as int;
    if n <= limit || n == 0 {
        one(over(p))
    } else {
        let mid = n / 2;
        join(
            branch_halves(run(p, 0, mid), limit),
            p.seps[mid],
            branch_halves(run(p, mid + 1, n), limit),
        )
    }
}

/// An internal node that is over-full is split in two; a half that a reader would not
/// accept is halved further.
pub open spec fn split_branch(p: Parts, order: nat, limit: nat) -> Parts {
    let n = p.seps.len() as int;
    if n <= order {
        one(over(p))
    } else {
        let mid = n / 2;
        join(
            branch_halves(run(p, 0, mid), limit),
            p.seps[mid],
            branch_halves(run(p, mid + 1, n), limit),
        )
    }
}

/// Where the operations for child `i` begin.
pub open spec fn part_start(seps: Seq<Seq<u8>>, b: Ops, i: int) -> int {
    if i == 0 {
        0
    } else if i <= seps.len() {
        rank(b, seps[i - 1])
    } else {
        b.len() as int
    }
}

/// The operations that are routed to child `i`.
pub open spec fn part_of(seps: Seq<Seq<u8>>, b: Ops, i: int) -> Ops {
    b.subrange(part_start(seps, b, i), part_start(seps, b, i + 1))
}

/// What the batch makes of the tree. What it changes nothing of stays the node it is.
pub open spec fn patched(t: Tree, b: Ops, order: nat, limit: nat) -> Parts
    decreases t, 0nat,
{
    match t {
        Tree::Leaf { entries } => {
            let es = apply_ops(entries, b);
            if already_holds(entries, b) {
                one(t)
            } else if es.len() == 0 {
                no_parts()
            } else {
                split_leaf(es, order, limit)
            }
        },
        Tree::Internal { seps, kids } => {
            let (p, changed) = patched_kids(seps, kids, kids.len(), b, order, limit);
            if b.len() == 0 || !changed {
                one(t)
            } else if p.trees.len() < 2 {
                p
            } else {
                split_branch(p, order, limit)
            }
        },
    }
}

/// What the batch makes of the first `n` children, and whether that is anything else.
pub open spec fn patched_kids(
    seps: Seq<Seq<u8>>,
    kids: Seq<Tree>,
    n: nat,
    b: Ops,
    order: nat,
    limit: nat,
) -> (Parts, bool)
    decreases kids, n,
{
    if n == 0 || n > kids.len() {
        (no_parts(), false)
    } else {
        let i = n - 1;
        let (p, changed) = patched_kids(seps, kids, i as nat, b, order, limit);
        let q = patched(kids[i], part_of(seps, b, i), order, limit);
        (append(p, seps[i - 1], q), changed || q != one(kids[i]))
    }
}

/// The children of a node with child `c` replaced by these parts.
pub open spec fn rewritten(seps: Seq<Seq<u8>>, kids: Seq<Tree>, c: int, q: Parts) -> Parts {
    Parts {
        seps: seps.take(c) + q.seps + seps.skip(c),
        trees: kids.take(c) + q.trees + kids.skip(c + 1),
    }
}

/// What binding a key makes of the tree: one tree, or two where its root was full.
pub open spec fn inserted(t: Tree, k: Seq<u8>, v: Seq<u8>, order: nat) -> Parts
    decreases t,
{
    match t {
        Tree::Leaf { entries } => {
            let es = upsert(entries, k, v);
            split_leaf(es, order, es.len())
        },
        Tree::Internal { seps, kids } => {
            let c = slot_of(seps, k);
            if 0 <= c < kids.len() {
                let p = rewritten(seps, kids, c, inserted(kids[c], k, v, order));
                split_branch(p, order, p.seps.len())
            } else {
                no_parts()
            }
        },
    }
}

/// The nodes that are written for it, in order: those on the path to the key.
pub open spec fn insert_puts(t: Tree, k: Seq<u8>, v: Seq<u8>, order: u16) -> Seq<Seq<u8>>
    decreases t,
{
    let own = payloads_of(inserted(t, k, v, order as nat).trees, order);
    match t {
        Tree::Leaf { .. } => own,
        Tree::Internal { seps, kids } => {
            let c = slot_of(seps, k);
            if 0 <= c < kids.len() {
                insert_puts(kids[c], k, v, order) + own
            } else {
                own
            }
        },
    }
}

/// What removing a key leaves of the tree: nothing where it was the last one. A node that
/// is left with one child gives way to it, and what does not hold the key stays.
pub open spec fn removed(t: Tree, k: Seq<u8>) -> Option<Tree>
    decreases t,
{
    match t {
        Tree::Leaf { entries } => if !has_key(entries, k) {
            Some(t)
        } else if entries.len() == 1 {
            None
        } else {
            Some(Tree::Leaf { entries: erase(entries, k) })
        },
        Tree::Internal { seps, kids } => {
            let c = slot_of(seps, k);
            if 0 <= c < kids.len() {
                match removed(kids[c], k) {
                    None => if kids.len() == 1 {
                        None
                    } else if kids.len() == 2 {
                        Some(kids.remove(c)[0])
                    } else {
                        Some(
                            Tree::Internal {
                                seps: seps.remove(if c > 0 { c - 1 } else { 0 }),
                                kids: kids.remove(c),
                            },
                        )
                    },
                    Some(w) => if w == kids[c] {
                        Some(t)
                    } else {
                        Some(Tree::Internal { seps, kids: kids.update(c, w) })
                    },
                }
            } else {
                Some(t)
            }
        },
    }
}

/// The nodes that are written for it, in order: those on the path to the key that are
/// left.
pub open spec fn remove_puts(t: Tree, k: Seq<u8>, order: u16) -> Seq<Seq<u8>>
    decreases t,
{
    match t {
        Tree::Leaf { entries } => match removed(t, k) {
            Some(w) => if w == t {
                Seq::empty()
            } else {
                seq![tree_bytes(w, order)]
            },
            None => Seq::empty(),
        },
        Tree::Internal { seps, kids } => {
            let c = slot_of(seps, k);
            if 0 <= c < kids.len() {
                let below = remove_puts(kids[c], k, order);
                match removed(kids[c], k) {
                    None => if kids.len() <= 2 {
                        below
                    } else {
                        below.push(tree_bytes(removed(t, k)->0, order))
                    },
                    Some(w) => if w == kids[c] {
                        below
                    } else {
                        below.push(tree_bytes(removed(t, k)->0, order))
                    },
                }
            } else {
                Seq::empty()
            }
        },
    }
}

/// The tree over at most two parts.
pub open spec fn topped(p: Parts) -> Tree {
    if p.trees.len() == 1 {
        p.trees[0]
    } else {
        over(p)
    }
}

/// The nodes that binding a key in a whole tree writes: those on the path, and a new
/// root where the old one was split.
pub open spec fn insert_root_puts(t: Tree, k: Seq<u8>, v: Seq<u8>, order: u16) -> Seq<Seq<u8>> {
    let p = inserted(t, k, v, order as nat);
    if p.trees.len() == 1 {
        insert_puts(t, k, v, order)
    } else {
        insert_puts(t, k, v, order).push(tree_bytes(over(p), order))
    }
}

/// The payloads of the root nodes of the trees.
pub open spec fn payloads_of(trees: Seq<Tree>, order: u16) -> Seq<Seq<u8>> {
    Seq::new(trees.len(), |i: int| tree_bytes(trees[i], order))
}

/// The nodes that are written for the batch, in order: each rewritten node once.
pub open spec fn patch_puts(t: Tree, b: Ops, order: u16, limit: nat) -> Seq<Seq<u8>>
    decreases t, 0nat,
{
    match t {
        Tree::Leaf { entries } => {
            if already_holds(entries, b) {
                Seq::empty()
            } else {
                payloads_of(patched(t, b, order as nat, limit).trees, order)
            }
        },
        Tree::Internal { seps, kids } => {
            let (p, changed) = patched_kids(seps, kids, kids.len(), b, order as nat, limit);
            let below = kids_puts(seps, kids, kids.len(), b, order, limit);
            if b.len() == 0 {
                Seq::empty()
            } else if !changed || p.trees.len() < 2 {
                below
            } else {
                below + payloads_of(split_branch(p, order as nat, limit).trees, order)
            }
        },
    }
}

/// The nodes that are written below the first `n` children.
pub open spec fn kids_puts(
    seps: Seq<Seq<u8>>,
    kids: Seq<Tree>,
    n: nat,
    b: Ops,
    order: u16,
    limit: nat,
) -> Seq<Seq<u8>>
    decreases kids, n,
{
    if n == 0 || n > kids.len() {
        Seq::empty()
    } else {
        kids_puts(seps, kids, (n - 1) as nat, b, order, limit) + patch_puts(
            kids[n - 1],
            part_of(seps, b, n - 1),
            order,
            limit,
        )
    }
}

// ---------------------------------------------------------------------------
// Parts
// ---------------------------------------------------------------------------

/// The parts are search trees between the separators, within the reader's limits and of
/// at most `h` levels.
pub open spec fn parts_ok(
    p: Parts,
    lo: Option<Seq<u8>>,
    hi: Option<Seq<u8>>,
    f: u32,
    h: nat,
) -> bool {
    &&& p.trees.len() == p.seps.len() + 1
    &&& ordered(over(p), lo, hi)
    &&& seps_encodable(p.seps)
    &&& forall|i: int|
        0 <= i < p.trees.len() ==> sized(#[trigger] p.trees[i], f) && height(p.trees[i]) <= h
}

/// The entries of the parts, in key order.
pub open spec fn listed(p: Parts) -> Seq<(Seq<u8>, Seq<u8>)> {
    concat(flats(p.trees))
}

pub proof fn lemma_one(t: Tree, lo: Option<Seq<u8>>, hi: Option<Seq<u8>>, f: u32, h: nat)
    requires
        ordered(t, lo, hi),
        sized(t, f),
        height(t) <= h,
    ensures
        parts_ok(one(t), lo, hi, f, h),
        listed(one(t)) == flat(t),
{
    let p = one(t);
    assert forall|i: int| 0 <= i < p.trees.len() implies ordered(
        #[trigger] p.trees[i],
        kid_lo(p.seps, lo, i),
        kid_hi(p.seps, hi, i),
    ) by {
        assert(i == 0);
    }
    assert(flats(p.trees) =~= seq![flat(t)]);
    lemma_concat_one(flat(t));
}

pub proof fn lemma_joined(
    a: Parts,
    cut: Seq<u8>,
    b: Parts,
    lo: Option<Seq<u8>>,
    hi: Option<Seq<u8>>,
    f: u32,
    h: nat,
)
    requires
        parts_ok(a, lo, Some(cut), f, h),
        parts_ok(b, Some(cut), hi, f, h),
        inside(lo, hi, cut),
        cut.len() <= u16::MAX,
    ensures
        parts_ok(join(a, cut, b), lo, hi, f, h),
        listed(join(a, cut, b)) == listed(a) + listed(b),
{
    lemma_lex_order();
    let p = join(a, cut, b);
    let n = a.seps.len() as int;
    let s = p.seps;
    assert forall|i: int| 0 <= i < s.len() implies s[i] == (if i < n {
        a.seps[i]
    } else if i == n {
        cut
    } else {
        b.seps[i - n - 1]
    }) by {}
    assert forall|i: int| 0 <= i < s.len() implies inside(lo, hi, #[trigger] s[i]) && s[i].len()
        <= u16::MAX && (i < n ==> lex_lt(s[i], cut)) && (i > n ==> lex_lt(cut, s[i])) by {
        if i < n {
            assert(inside(lo, Some(cut), a.seps[i]));
        } else if i > n {
            assert(inside(Some(cut), hi, b.seps[i - n - 1]));
        }
    }
    assert forall|i: int, j: int| #![trigger s[i], s[j]] 0 <= i < j < s.len() implies lex_lt(
        s[i],
        s[j],
    ) by {
        if j < n {
            assert(lex_lt(a.seps[i], a.seps[j]));
        } else if i > n {
            assert(lex_lt(b.seps[i - n - 1], b.seps[j - n - 1]));
        } else {
            assert(lex_lt(s[i], cut) || s[i] == cut);
        }
    }
    assert forall|i: int| 0 <= i < p.trees.len() implies ordered(
        #[trigger] p.trees[i],
        kid_lo(s, lo, i),
        kid_hi(s, hi, i),
    ) && sized(p.trees[i], f) && height(p.trees[i]) <= h by {
        if i <= n {
            assert(p.trees[i] == a.trees[i]);
            assert(ordered(a.trees[i], kid_lo(a.seps, lo, i), kid_hi(a.seps, Some(cut), i)));
        } else {
            let j = i - n - 1;
            assert(p.trees[i] == b.trees[j]);
            assert(ordered(b.trees[j], kid_lo(b.seps, Some(cut), j), kid_hi(b.seps, hi, j)));
        }
    }
    assert(flats(p.trees) =~= flats(a.trees) + flats(b.trees));
    lemma_concat_split(flats(a.trees), flats(b.trees));
}

/// A run of parts is between the separators around it.
pub proof fn lemma_run(
    p: Parts,
    lo: Option<Seq<u8>>,
    hi: Option<Seq<u8>>,
    f: u32,
    h: nat,
    from: int,
    to: int,
)
    requires
        parts_ok(p, lo, hi, f, h),
        0 <= from <= to < p.trees.len(),
    ensures
        parts_ok(run(p, from, to), kid_lo(p.seps, lo, from), kid_hi(p.seps, hi, to), f, h),
{
    let q = run(p, from, to);
    lemma_ordered_run(p.seps, p.trees, lo, hi, from, to);
    assert forall|i: int| 0 <= i < q.seps.len() implies (#[trigger] q.seps[i]).len() <= u16::MAX by {
        assert(q.seps[i] == p.seps[from + i]);
    }
    assert forall|i: int| 0 <= i < q.trees.len() implies sized(#[trigger] q.trees[i], f) && height(
        q.trees[i],
    ) <= h by {
        assert(q.trees[i] == p.trees[from + i]);
    }
}

/// The node over few enough parts.
pub proof fn lemma_over(p: Parts, lo: Option<Seq<u8>>, hi: Option<Seq<u8>>, f: u32, h: nat)
    requires
        parts_ok(p, lo, hi, f, h),
        p.seps.len() <= f,
        p.seps.len() <= u16::MAX,
    ensures
        sized(over(p), f),
        height(over(p)) <= h + 1,
        flat(over(p)) == listed(p),
        parts_ok(one(over(p)), lo, hi, f, h + 1),
        listed(one(over(p))) == listed(p),
{
    lemma_height_bound(p.seps, p.trees, h);
    lemma_flat(p.seps, p.trees);
    lemma_one(over(p), lo, hi, f, h + 1);
}

proof fn lemma_listed_split(p: Parts, mid: int)
    requires
        p.trees.len() == p.seps.len() + 1,
        0 <= mid < p.seps.len(),
    ensures
        listed(run(p, 0, mid)) + listed(run(p, mid + 1, p.seps.len() as int)) == listed(p),
{
    let a = run(p, 0, mid);
    let b = run(p, mid + 1, p.seps.len() as int);
    assert(flats(p.trees) =~= flats(a.trees) + flats(b.trees));
    lemma_concat_split(flats(a.trees), flats(b.trees));
}

proof fn lemma_branch_halves(
    p: Parts,
    limit: nat,
    lo: Option<Seq<u8>>,
    hi: Option<Seq<u8>>,
    f: u32,
    h: nat,
)
    requires
        parts_ok(p, lo, hi, f, h),
        1 <= limit <= f,
        limit <= u16::MAX,
    ensures
        parts_ok(branch_halves(p, limit), lo, hi, f, h + 1),
        listed(branch_halves(p, limit)) == listed(p),
    decreases p.seps.len(),
{
    let n = p.seps.len() as int;
    if n <= limit {
        lemma_over(p, lo, hi, f, h);
    } else {
        let mid = n / 2;
        lemma_run(p, lo, hi, f, h, 0, mid);
        lemma_run(p, lo, hi, f, h, mid + 1, n);
        lemma_branch_halves(run(p, 0, mid), limit, lo, Some(p.seps[mid]), f, h);
        lemma_branch_halves(run(p, mid + 1, n), limit, Some(p.seps[mid]), hi, f, h);
        lemma_listed_split(p, mid);
        assert(inside(lo, hi, p.seps[mid]));
        lemma_joined(
            branch_halves(run(p, 0, mid), limit),
            p.seps[mid],
            branch_halves(run(p, mid + 1, n), limit),
            lo,
            hi,
            f,
            h + 1,
        );
    }
}

proof fn lemma_split_branch(
    p: Parts,
    order: nat,
    limit: nat,
    lo: Option<Seq<u8>>,
    hi: Option<Seq<u8>>,
    f: u32,
    h: nat,
)
    requires
        parts_ok(p, lo, hi, f, h),
        1 <= order <= limit <= f,
        limit <= u16::MAX,
    ensures
        parts_ok(split_branch(p, order, limit), lo, hi, f, h + 1),
        listed(split_branch(p, order, limit)) == listed(p),
{
    let n = p.seps.len() as int;
    if n <= order {
        lemma_over(p, lo, hi, f, h);
    } else {
        let mid = n / 2;
        lemma_run(p, lo, hi, f, h, 0, mid);
        lemma_run(p, lo, hi, f, h, mid + 1, n);
        lemma_branch_halves(run(p, 0, mid), limit, lo, Some(p.seps[mid]), f, h);
        lemma_branch_halves(run(p, mid + 1, n), limit, Some(p.seps[mid]), hi, f, h);
        lemma_listed_split(p, mid);
        assert(inside(lo, hi, p.seps[mid]));
        lemma_joined(
            branch_halves(run(p, 0, mid), limit),
            p.seps[mid],
            branch_halves(run(p, mid + 1, n), limit),
            lo,
            hi,
            f,
            h + 1,
        );
    }
}

/// Half a listing is sorted, encodable and between the bounds, and the key between the
/// halves divides them.
proof fn lemma_halves(
    es: Seq<(Seq<u8>, Seq<u8>)>,
    mid: int,
    lo: Option<Seq<u8>>,
    hi: Option<Seq<u8>>,
)
    requires
        sorted(es),
        leaf_encodable(es),
        within(es, lo, hi),
        1 <= mid < es.len(),
    ensures
        sorted(es.take(mid)) && sorted(es.skip(mid)),
        leaf_encodable(es.take(mid)) && leaf_encodable(es.skip(mid)),
        within(es.take(mid), lo, Some(es[mid].0)),
        within(es.skip(mid), Some(es[mid].0), hi),
        inside(lo, hi, es[mid].0),
        es.take(mid) + es.skip(mid) == es,
{
    lemma_lex_order();
    let a = es.take(mid);
    let b = es.skip(mid);
    let k = es[mid].0;
    assert(a + b =~= es);
    assert(lex_lt(es[0].0, es[mid].0));
    assert forall|i: int, j: int| #![trigger a[i], a[j]] 0 <= i < j < a.len() implies lex_lt(
        a[i].0,
        a[j].0,
    ) by {
        assert(a[i] == es[i] && a[j] == es[j]);
    }
    assert forall|i: int, j: int| #![trigger b[i], b[j]] 0 <= i < j < b.len() implies lex_lt(
        b[i].0,
        b[j].0,
    ) by {
        assert(b[i] == es[mid + i] && b[j] == es[mid + j]);
    }
    assert forall|i: int| 0 <= i < a.len() implies lex_lt((#[trigger] a[i]).0, k) && (lo is Some
        ==> !lex_lt(a[i].0, lo->0)) && a[i].0.len() <= u16::MAX && a[i].1.len() <= u32::MAX by {
        assert(a[i] == es[i]);
        assert(lex_lt(es[i].0, es[mid].0));
    }
    assert forall|i: int| 0 <= i < b.len() implies !lex_lt((#[trigger] b[i]).0, k) && (hi is Some
        ==> lex_lt(b[i].0, hi->0)) && b[i].0.len() <= u16::MAX && b[i].1.len() <= u32::MAX by {
        assert(b[i] == es[mid + i]);
        if i > 0 {
            assert(lex_lt(es[mid].0, es[mid + i].0));
        }
    }
}

proof fn lemma_leaf_halves(
    es: Seq<(Seq<u8>, Seq<u8>)>,
    limit: nat,
    lo: Option<Seq<u8>>,
    hi: Option<Seq<u8>>,
    f: u32,
)
    requires
        sorted(es),
        leaf_encodable(es),
        within(es, lo, hi),
        1 <= limit <= f,
        limit <= u16::MAX,
    ensures
        parts_ok(leaf_halves(es, limit), lo, hi, f, 1),
        listed(leaf_halves(es, limit)) == es,
    decreases es.len(),
{
    if es.len() <= limit {
        lemma_one(Tree::Leaf { entries: es }, lo, hi, f, 1);
    } else {
        let mid = es.len() as int / 2;
        let k = es[mid].0;
        lemma_halves(es, mid, lo, hi);
        lemma_leaf_halves(es.take(mid), limit, lo, Some(k), f);
        lemma_leaf_halves(es.skip(mid), limit, Some(k), hi, f);
        lemma_joined(
            leaf_halves(es.take(mid), limit),
            k,
            leaf_halves(es.skip(mid), limit),
            lo,
            hi,
            f,
            1,
        );
    }
}

proof fn lemma_split_leaf(
    es: Seq<(Seq<u8>, Seq<u8>)>,
    order: nat,
    limit: nat,
    lo: Option<Seq<u8>>,
    hi: Option<Seq<u8>>,
    f: u32,
)
    requires
        sorted(es),
        leaf_encodable(es),
        within(es, lo, hi),
        1 <= order <= limit <= f,
        limit <= u16::MAX,
    ensures
        parts_ok(split_leaf(es, order, limit), lo, hi, f, 1),
        listed(split_leaf(es, order, limit)) == es,
{
    if es.len() <= order {
        lemma_one(Tree::Leaf { entries: es }, lo, hi, f, 1);
    } else {
        let mid = es.len() as int / 2;
        let k = es[mid].0;
        lemma_halves(es, mid, lo, hi);
        lemma_leaf_halves(es.take(mid), limit, lo, Some(k), f);
        lemma_leaf_halves(es.skip(mid), limit, Some(k), hi, f);
        lemma_joined(
            leaf_halves(es.take(mid), limit),
            k,
            leaf_halves(es.skip(mid), limit),
            lo,
            hi,
            f,
            1,
        );
    }
}

// ---------------------------------------------------------------------------
// What a batch comes to
// ---------------------------------------------------------------------------

/// The part of the batch for child `i` changes the listing there alone.
proof fn lemma_patch_part(
    t: Tree,
    lo: Option<Seq<u8>>,
    hi: Option<Seq<u8>>,
    b: Seq<(Seq<u8>, Option<Seq<u8>>)>,
    i: int,
    done: int,
    next: int,
    a: Seq<(Seq<u8>, Seq<u8>)>,
)
    requires
        t is Internal,
        ordered(t, lo, hi),
        0 <= i < t->kids.len(),
        0 <= done <= next <= b.len(),
        sorted(a + concat(flats(t->kids).skip(i))),
        i == 0 ==> a.len() == 0,
        i > 0 ==> all_lt(a, t->seps[i - 1]),
        forall|j: int|
            done <= j < next ==> covers(
                kid_lo(t->seps, lo, i),
                kid_hi(t->seps, hi, i),
                (#[trigger] b[j]).0,
            ),
    ensures
        ({
            let part = b.subrange(done, next);
            let made = apply_ops(flat(t->kids[i]), part);
            let z = concat(flats(t->kids).skip(i + 1));
            &&& apply_ops(a + concat(flats(t->kids).skip(i)), b.skip(done)) == apply_ops(
                a + made + z,
                b.skip(next),
            )
            &&& sorted(a + made + z)
        }),
{
    lemma_lex_order();
    let ts = t->seps;
    let tk = t->kids;
    let fs = flats(tk);
    let part = b.subrange(done, next);
    let m = flat(tk[i]);
    let z = concat(fs.skip(i + 1));
    assert(fs.skip(i) =~= seq![fs[i]] + fs.skip(i + 1));
    lemma_concat_split(seq![fs[i]], fs.skip(i + 1));
    lemma_concat_one(fs[i]);
    assert(a + concat(fs.skip(i)) =~= a + m + z);
    assert(b.skip(done) =~= part + b.skip(next));
    lemma_apply_split(a + m + z, part, b.skip(next));
    assert forall|j: int| 0 <= j < part.len() implies all_lt(a, (#[trigger] part[j]).0) && all_gt(
        z,
        part[j].0,
    ) by {
        assert(part[j] == b[done + j]);
        if i + 1 < tk.len() {
            let w = fs.skip(i + 1);
            assert forall|x: int| 0 <= x < w.len() implies within(
                #[trigger] w[x],
                Some(ts[i]),
                None,
            ) by {
                let y = i + 1 + x;
                assert(w[x] == flat(tk[y]));
                assert(ordered(tk[y], kid_lo(ts, lo, y), kid_hi(ts, hi, y)));
                lemma_ordered_flat(tk[y], kid_lo(ts, lo, y), kid_hi(ts, hi, y));
                assert(x == 0 || lex_lt(ts[i], ts[y - 1]));
            }
            lemma_within_concat(w, Some(ts[i]), None);
        } else {
            assert(fs.skip(i + 1) =~= Seq::empty());
        }
    }
    lemma_apply_context(a, m, z, part);
}

/// Binding and removing keys between the bounds leaves a listing between them.
proof fn lemma_apply_within(
    s: Seq<(Seq<u8>, Seq<u8>)>,
    b: Seq<(Seq<u8>, Option<Seq<u8>>)>,
    lo: Option<Seq<u8>>,
    hi: Option<Seq<u8>>,
)
    requires
        sorted(s),
        within(s, lo, hi),
        forall|i: int| 0 <= i < b.len() ==> covers(lo, hi, (#[trigger] b[i]).0),
    ensures
        within(apply_ops(s, b), lo, hi),
    decreases b.len(),
{
    if b.len() > 0 {
        let p = b.drop_last();
        assert forall|i: int| 0 <= i < p.len() implies covers(lo, hi, (#[trigger] p[i]).0) by {
            assert(p[i] == b[i]);
        }
        lemma_apply_within(s, p, lo, hi);
        lemma_apply_sorted(s, p);
        let u = apply_ops(s, p);
        let k = b[b.len() - 1].0;
        assert(covers(lo, hi, k));
        match b.last().1 {
            Some(v) => lemma_upsert_within(u, k, v, lo, hi),
            None => {
                let e = erase(u, k);
                assert forall|i: int| 0 <= i < e.len() implies covers(
                    lo,
                    hi,
                    (#[trigger] e[i]).0,
                ) by {
                    if has_key(u, k) {
                        assert(e[i] == u[if i < rank(u, k) { i } else { i + 1 }]);
                    }
                }
            },
        }
    }
}

/// What already holds of the whole tree holds of the child that it is routed to.
proof fn lemma_noop_part(
    t: Tree,
    lo: Option<Seq<u8>>,
    hi: Option<Seq<u8>>,
    b: Seq<(Seq<u8>, Option<Seq<u8>>)>,
    i: int,
    done: int,
    next: int,
)
    requires
        t is Internal,
        ordered(t, lo, hi),
        0 <= i < t->kids.len(),
        0 <= done <= next <= b.len(),
        already_holds(flat(t), b),
        forall|j: int|
            done <= j < next ==> covers(
                kid_lo(t->seps, lo, i),
                kid_hi(t->seps, hi, i),
                (#[trigger] b[j]).0,
            ),
    ensures
        already_holds(flat(t->kids[i]), b.subrange(done, next)),
{
    let part = b.subrange(done, next);
    assert(Tree::Internal { seps: t->seps, kids: t->kids } == t);
    assert forall|j: int| 0 <= j < part.len() implies lookup(
        flat(t->kids[i]),
        (#[trigger] part[j]).0,
    ) == part[j].1 by {
        let k = b[done + j].0;
        assert(part[j] == b[done + j]);
        lemma_slot_is(t->seps, k, i);
        lemma_route(t->seps, t->kids, lo, hi, k);
        lemma_rank_context(
            concat(flats(t->kids).take(i)),
            flat(t->kids[i]),
            concat(flats(t->kids).skip(i + 1)),
            k,
        );
    }
}

/// The keys of the operations that child `i` gets are those that are routed to it.
pub proof fn lemma_part(t: Tree, b: Ops, lo: Option<Seq<u8>>, hi: Option<Seq<u8>>, i: int)
    requires
        t is Internal,
        ordered(t, lo, hi),
        sorted(b),
        forall|j: int| 0 <= j < b.len() ==> covers(lo, hi, (#[trigger] b[j]).0),
        0 <= i < t->kids.len(),
    ensures
        0 <= part_start(t->seps, b, i) <= part_start(t->seps, b, i + 1) <= b.len(),
        forall|j: int|
            part_start(t->seps, b, i) <= j < part_start(t->seps, b, i + 1) ==> covers(
                kid_lo(t->seps, lo, i),
                kid_hi(t->seps, hi, i),
                (#[trigger] b[j]).0,
            ),
        sorted(part_of(t->seps, b, i)),
        forall|j: int|
            0 <= j < part_of(t->seps, b, i).len() ==> covers(
                kid_lo(t->seps, lo, i),
                kid_hi(t->seps, hi, i),
                (#[trigger] part_of(t->seps, b, i)[j]).0,
            ),
{
    lemma_lex_order();
    let ts = t->seps;
    let x = part_start(ts, b, i);
    let y = part_start(ts, b, i + 1);
    if i > 0 {
        lemma_rank(b, ts[i - 1]);
    }
    if i < ts.len() {
        lemma_rank(b, ts[i]);
    }
    if i > 0 && i < ts.len() {
        assert(lex_lt(ts[i - 1], ts[i]));
        if y < x {
            assert(lex_lt(b[y].0, ts[i - 1]));
            assert(!lex_lt(b[y].0, ts[i]));
        }
    }
    assert forall|j: int| x <= j < y implies covers(
        kid_lo(ts, lo, i),
        kid_hi(ts, hi, i),
        (#[trigger] b[j]).0,
    ) by {}
    let part = part_of(ts, b, i);
    assert forall|u: int, v: int| #![trigger part[u], part[v]]
        0 <= u < v < part.len() implies lex_lt(part[u].0, part[v].0) by {
        assert(part[u] == b[x + u] && part[v] == b[x + v]);
    }
    assert forall|j: int| 0 <= j < part.len() implies covers(
        kid_lo(ts, lo, i),
        kid_hi(ts, hi, i),
        (#[trigger] part[j]).0,
    ) by {
        assert(part[j] == b[x + j]);
    }
}

pub proof fn lemma_part_encodable(seps: Seq<Seq<u8>>, b: Ops, i: int)
    requires
        ops_encodable(b),
        0 <= part_start(seps, b, i) <= part_start(seps, b, i + 1) <= b.len(),
    ensures
        ops_encodable(part_of(seps, b, i)),
{
    let part = part_of(seps, b, i);
    assert forall|j: int| 0 <= j < part.len() implies ((#[trigger] part[j]).1 matches Some(v)
        ==> part[j].0.len() <= u16::MAX && v.len() <= u32::MAX) by {
        assert(part[j] == b[part_start(seps, b, i) + j]);
    }
}

/// Binding and removing encodable keys leaves an encodable listing.
proof fn lemma_apply_encodable(s: Seq<(Seq<u8>, Seq<u8>)>, b: Ops)
    requires
        sorted(s),
        leaf_encodable(s),
        ops_encodable(b),
    ensures
        leaf_encodable(apply_ops(s, b)),
    decreases b.len(),
{
    if b.len() > 0 {
        let p = b.drop_last();
        assert(ops_encodable(p)) by {
            assert forall|j: int| 0 <= j < p.len() implies ((#[trigger] p[j]).1 matches Some(v)
                ==> p[j].0.len() <= u16::MAX && v.len() <= u32::MAX) by {
                assert(p[j] == b[j]);
            }
        }
        lemma_apply_encodable(s, p);
        lemma_apply_sorted(s, p);
        let w = apply_ops(s, p);
        let k = b.last().0;
        lemma_rank(w, k);
        let r = rank(w, k);
        let u = apply_ops(s, b);
        assert(b[b.len() - 1] == b.last());
        assert forall|i: int| 0 <= i < u.len() implies (#[trigger] u[i]).0.len() <= u16::MAX
            && u[i].1.len() <= u32::MAX by {
            match b.last().1 {
                Some(v) => {
                    assert(u == upsert(w, k, v));
                    if i != r {
                        let j = if has_key(w, k) || i < r { i } else { i - 1 };
                        assert(u[i] == w[j]);
                    }
                },
                None => {
                    assert(u == erase(w, k));
                    let j = if has_key(w, k) && i >= r { i + 1 } else { i };
                    assert(u[i] == w[j]);
                },
            }
        }
    }
}

/// The parts that the first `n` children came to, and what is left of the tree and of
/// the batch, list what the whole batch makes of the whole tree.
spec fn gathered(
    t: Tree,
    b: Ops,
    n: int,
    p: Parts,
    lo: Option<Seq<u8>>,
    hi: Option<Seq<u8>>,
    f: u32,
) -> bool {
    let rest = concat(flats(t->kids).skip(n));
    &&& p.trees.len() == 0 ==> p.seps.len() == 0
    &&& p.trees.len() > 0 ==> n > 0 && parts_ok(
        p,
        lo,
        kid_hi(t->seps, hi, n - 1),
        f,
        (height(t) - 1) as nat,
    )
    &&& sorted(listed(p) + rest)
    &&& apply_ops(listed(p) + rest, b.skip(part_start(t->seps, b, n))) == apply_ops(flat(t), b)
}

/// One child more.
#[verifier::rlimit(40)]
#[verifier::spinoff_prover]
proof fn lemma_gather(
    t: Tree,
    b: Ops,
    i: int,
    p: Parts,
    q: Parts,
    lo: Option<Seq<u8>>,
    hi: Option<Seq<u8>>,
    f: u32,
)
    requires
        t is Internal,
        ordered(t, lo, hi),
        sized(t, f),
        sorted(b),
        forall|j: int| 0 <= j < b.len() ==> covers(lo, hi, (#[trigger] b[j]).0),
        0 <= i < t->kids.len(),
        gathered(t, b, i, p, lo, hi, f),
        listed(q) == apply_ops(flat(t->kids[i]), part_of(t->seps, b, i)),
        q.trees.len() == 0 ==> q.seps.len() == 0,
        q.trees.len() > 0 ==> parts_ok(
            q,
            kid_lo(t->seps, lo, i),
            kid_hi(t->seps, hi, i),
            f,
            height(t->kids[i]),
        ),
    ensures
        gathered(t, b, i + 1, append(p, t->seps[i - 1], q), lo, hi, f),
{
    lemma_lex_order();
    let ts = t->seps;
    let tk = t->kids;
    let fs = flats(tk);
    let a = listed(p);
    let z = concat(fs.skip(i + 1));
    let klo = kid_lo(ts, lo, i);
    let khi = kid_hi(ts, hi, i);
    let x = part_start(ts, b, i);
    let y = part_start(ts, b, i + 1);
    let h = (height(t) - 1) as nat;
    assert(Tree::Internal { seps: ts, kids: tk } == t);
    lemma_height_kids(ts, tk);
    assert(height(tk[i]) <= h);
    lemma_part(t, b, lo, hi, i);
    if p.trees.len() > 0 {
        lemma_flat(p.seps, p.trees);
        lemma_ordered_flat(over(p), lo, kid_hi(ts, hi, i - 1));
    } else {
        assert(flats(p.trees) =~= Seq::empty());
    }
    if q.trees.len() == 0 {
        assert(flats(q.trees) =~= Seq::empty());
    }
    lemma_patch_part(t, lo, hi, b, i, x, y, a);
    if i < ts.len() {
        assert(inside(lo, hi, ts[i]));
    }
    if i > 0 {
        assert(inside(lo, hi, ts[i - 1]));
        if i < ts.len() {
            assert(lex_lt(ts[i - 1], ts[i]));
        }
    }
    let r = append(p, ts[i - 1], q);
    assert(listed(r) =~= a + listed(q) && (r.trees.len() > 0 ==> parts_ok(r, lo, khi, f, h))) by {
        if q.trees.len() == 0 {
            if p.trees.len() > 0 {
                lemma_ordered_widen(over(p), lo, kid_hi(ts, hi, i - 1), lo, khi);
            }
        } else if p.trees.len() == 0 {
            lemma_ordered_widen(over(q), klo, khi, lo, khi);
        } else {
            assert(ts[i - 1].len() <= u16::MAX);
            lemma_joined(p, ts[i - 1], q, lo, khi, f, h);
        }
    }
    assert(listed(r) + z =~= a + listed(q) + z);
}

/// What the batch makes of a search tree: search trees between the same bounds, within
/// the reader's limits and no taller, that list the tree's entries with every
/// operation applied. Where every operation holds already it is the tree itself.
#[verifier::spinoff_prover]
pub proof fn lemma_patched(
    t: Tree,
    b: Ops,
    order: nat,
    limit: nat,
    lo: Option<Seq<u8>>,
    hi: Option<Seq<u8>>,
    f: u32,
)
    requires
        ordered(t, lo, hi),
        sized(t, f),
        sorted(b),
        ops_encodable(b),
        forall|j: int| 0 <= j < b.len() ==> covers(lo, hi, (#[trigger] b[j]).0),
        1 <= order <= limit <= f,
        limit <= u16::MAX,
    ensures
        ({
            let p = patched(t, b, order, limit);
            &&& p.trees.len() == 0 ==> p.seps.len() == 0
            &&& p.trees.len() > 0 ==> parts_ok(p, lo, hi, f, height(t))
            &&& listed(p) == apply_ops(flat(t), b)
            &&& already_holds(flat(t), b) ==> p == one(t)
        }),
    decreases t, (if t is Internal { t->kids.len() + 1 } else { 0 }),
{
    match t {
        Tree::Leaf { entries } => {
            if already_holds(entries, b) {
                lemma_apply_noop(entries, b);
                lemma_one(t, lo, hi, f, 1);
            } else {
                let es = apply_ops(entries, b);
                lemma_apply_sorted(entries, b);
                lemma_apply_within(entries, b, lo, hi);
                lemma_apply_encodable(entries, b);
                assert(flat(t) == entries && height(t) == 1);
                if es.len() > 0 {
                    lemma_split_leaf(es, order, limit, lo, hi, f);
                } else {
                    assert(flats(no_parts().trees) =~= Seq::empty());
                    assert(listed(no_parts()) =~= es);
                }
            }
        },
        Tree::Internal { seps, kids } => {
            let n = kids.len();
            lemma_patched_kids(t, n, b, order, limit, lo, hi, f);
            let (p, changed) = patched_kids(seps, kids, n, b, order, limit);
            lemma_flat(seps, kids);
            lemma_height_kids(seps, kids);
            assert(flats(kids).skip(n as int) =~= Seq::empty());
            assert(b.skip(part_start(seps, b, n as int)) =~= Seq::empty());
            assert(listed(p) + concat(flats(kids).skip(n as int)) =~= listed(p));
            if b.len() == 0 {
                assert(b =~= Seq::empty());
                lemma_one(t, lo, hi, f, height(t));
            } else if !changed {
                assert(kids.take(n as int) =~= kids);
                lemma_one(t, lo, hi, f, height(t));
            } else if p.trees.len() < 2 {
                if p.trees.len() == 1 {
                    assert(height(kids[0]) < height(t));
                }
            } else {
                assert(height(kids[0]) < height(t));
                lemma_split_branch(p, order, limit, lo, hi, f, (height(t) - 1) as nat);
            }
        },
    }
}

#[verifier::spinoff_prover]
proof fn lemma_patched_kids(
    t: Tree,
    n: nat,
    b: Ops,
    order: nat,
    limit: nat,
    lo: Option<Seq<u8>>,
    hi: Option<Seq<u8>>,
    f: u32,
)
    requires
        t is Internal,
        n <= t->kids.len(),
        ordered(t, lo, hi),
        sized(t, f),
        sorted(b),
        ops_encodable(b),
        forall|j: int| 0 <= j < b.len() ==> covers(lo, hi, (#[trigger] b[j]).0),
        1 <= order <= limit <= f,
        limit <= u16::MAX,
    ensures
        ({
            let (p, changed) = patched_kids(t->seps, t->kids, n, b, order, limit);
            &&& gathered(t, b, n as int, p, lo, hi, f)
            &&& !changed ==> p == (Parts {
                seps: t->seps.take(if n == 0 { 0 } else { n - 1 }),
                trees: t->kids.take(n as int),
            })
            &&& already_holds(flat(t), b) ==> !changed
        }),
    decreases t, n,
{
    let ts = t->seps;
    let tk = t->kids;
    assert(Tree::Internal { seps: ts, kids: tk } == t);
    lemma_flat(ts, tk);
    lemma_ordered_flat(t, lo, hi);
    if n == 0 {
        let p = no_parts();
        assert(flats(p.trees) =~= Seq::empty());
        assert(flats(tk).skip(0) =~= flats(tk));
        assert(listed(p) + concat(flats(tk).skip(0)) =~= flat(t));
        assert(b.skip(0) =~= b);
        assert(p.seps =~= ts.take(0));
        assert(p.trees =~= tk.take(0));
    } else {
        let i = n - 1;
        lemma_patched_kids(t, i as nat, b, order, limit, lo, hi, f);
        let (p, changed) = patched_kids(ts, tk, i as nat, b, order, limit);
        lemma_part(t, b, lo, hi, i);
        lemma_part_encodable(ts, b, i);
        let part = part_of(ts, b, i);
        assert(ordered(tk[i], kid_lo(ts, lo, i), kid_hi(ts, hi, i)));
        lemma_patched(tk[i], part, order, limit, kid_lo(ts, lo, i), kid_hi(ts, hi, i), f);
        let q = patched(tk[i], part, order, limit);
        lemma_gather(t, b, i, p, q, lo, hi, f);
        if already_holds(flat(t), b) {
            lemma_noop_part(t, lo, hi, b, i, part_start(ts, b, i), part_start(ts, b, i + 1));
        }
        if !changed && q == one(tk[i]) {
            let r = append(p, ts[i - 1], q);
            assert(r.trees =~= tk.take(n as int));
            assert(r.seps =~= ts.take(n - 1));
        }
    }
}

/// Nothing is written where every operation holds already.
pub proof fn lemma_no_puts(
    t: Tree,
    b: Ops,
    order: u16,
    limit: nat,
    lo: Option<Seq<u8>>,
    hi: Option<Seq<u8>>,
)
    requires
        ordered(t, lo, hi),
        sorted(b),
        forall|j: int| 0 <= j < b.len() ==> covers(lo, hi, (#[trigger] b[j]).0),
        already_holds(flat(t), b),
    ensures
        patch_puts(t, b, order, limit) == Seq::<Seq<u8>>::empty(),
        patched(t, b, order as nat, limit) == one(t),
    decreases t, (if t is Internal { t->kids.len() + 1 } else { 0 }),
{
    if t is Internal {
        lemma_no_kids_puts(t, t->kids.len(), b, order, limit, lo, hi);
    }
}

proof fn lemma_no_kids_puts(
    t: Tree,
    n: nat,
    b: Ops,
    order: u16,
    limit: nat,
    lo: Option<Seq<u8>>,
    hi: Option<Seq<u8>>,
)
    requires
        t is Internal,
        n <= t->kids.len(),
        ordered(t, lo, hi),
        sorted(b),
        forall|j: int| 0 <= j < b.len() ==> covers(lo, hi, (#[trigger] b[j]).0),
        already_holds(flat(t), b),
    ensures
        kids_puts(t->seps, t->kids, n, b, order, limit) == Seq::<Seq<u8>>::empty(),
        !patched_kids(t->seps, t->kids, n, b, order as nat, limit).1,
    decreases t, n,
{
    if n > 0 {
        let i = n - 1;
        let ts = t->seps;
        lemma_no_kids_puts(t, i as nat, b, order, limit, lo, hi);
        lemma_part(t, b, lo, hi, i);
        lemma_noop_part(t, lo, hi, b, i, part_start(ts, b, i), part_start(ts, b, i + 1));
        assert(ordered(t->kids[i], kid_lo(ts, lo, i), kid_hi(ts, hi, i)));
        lemma_no_puts(
            t->kids[i],
            part_of(ts, b, i),
            order,
            limit,
            kid_lo(ts, lo, i),
            kid_hi(ts, hi, i),
        );
        assert(kids_puts(ts, t->kids, n, b, order, limit) =~= Seq::empty());
    }
}

/// What the batch leaves as it is, it already held.
pub proof fn lemma_applied_holds(s: Seq<(Seq<u8>, Seq<u8>)>, b: Ops)
    requires
        sorted(s),
        sorted(b),
        apply_ops(s, b) == s,
    ensures
        already_holds(s, b),
{
    assert forall|i: int| 0 <= i < b.len() implies lookup(s, (#[trigger] b[i]).0) == b[i].1 by {
        let k = b[i].0;
        lemma_lookup_apply(s, b, k);
        lemma_rank(b, k);
    }
}

/// The operations for the next child end where the first key at or above its upper
/// separator stands.
pub proof fn lemma_next_part(
    t: Tree,
    b: Ops,
    lo: Option<Seq<u8>>,
    hi: Option<Seq<u8>>,
    i: int,
    at: int,
    next: int,
    all: Ops,
    from: int,
)
    requires
        t is Internal,
        ordered(t, lo, hi),
        sorted(b),
        0 <= from,
        from + b.len() <= all.len(),
        b == all.subrange(from, from + b.len()),
        0 <= i < t->kids.len(),
        t->kids.len() == t->seps.len() + 1,
        at == part_start(t->seps, b, i),
        0 <= at <= next <= b.len(),
        i == t->seps.len() ==> next == b.len(),
        i < t->seps.len() ==> forall|j: int|
            from + at <= j < from + next ==> lex_lt((#[trigger] all[j]).0, t->seps[i]),
        i < t->seps.len() ==> forall|j: int|
            from + next <= j < from + b.len() ==> !lex_lt((#[trigger] all[j]).0, t->seps[i]),
    ensures
        next == part_start(t->seps, b, i + 1),
{
    lemma_lex_order();
    let ts = t->seps;
    if i < ts.len() {
        if next < b.len() {
            assert(b[next] == all[from + next]);
        }
        if next > 0 {
            assert(b[next - 1] == all[from + next - 1]);
            if next == at {
                lemma_rank(b, ts[i - 1]);
                assert(lex_lt(b[at - 1].0, ts[i - 1]));
                assert(lex_lt(ts[i - 1], ts[i]));
            }
        }
        lemma_rank_is(b, ts[i], next);
    }
}

// ---------------------------------------------------------------------------
// What is stored
// ---------------------------------------------------------------------------

/// Every tree of the parts is stored.
pub open spec fn parts_stored(payloads: Set<Seq<u8>>, p: Parts, order: u16) -> bool {
    forall|i: int| 0 <= i < p.trees.len() ==> stored(payloads, #[trigger] p.trees[i], order)
}

proof fn lemma_halves_are_leaves(es: Seq<(Seq<u8>, Seq<u8>)>, limit: nat)
    ensures
        forall|i: int|
            0 <= i < leaf_halves(es, limit).trees.len() ==> (#[trigger] leaf_halves(
                es,
                limit,
            ).trees[i]) is Leaf,
    decreases es.len(),
{
    if es.len() > limit && es.len() >= 2 {
        let mid = es.len() as int / 2;
        lemma_halves_are_leaves(es.take(mid), limit);
        lemma_halves_are_leaves(es.skip(mid), limit);
        let a = leaf_halves(es.take(mid), limit);
        let b = leaf_halves(es.skip(mid), limit);
        let p = leaf_halves(es, limit);
        assert forall|i: int| 0 <= i < p.trees.len() implies (#[trigger] p.trees[i]) is Leaf by {
            if i < a.trees.len() {
                assert(p.trees[i] == a.trees[i]);
            } else {
                assert(p.trees[i] == b.trees[i - a.trees.len()]);
            }
        }
    }
}

/// Each node over a run of stored trees is stored once its own payload is.
spec fn kids_stored(payloads: Set<Seq<u8>>, p: Parts, order: u16) -> bool {
    forall|i: int, j: int|
        0 <= i < p.trees.len() && (#[trigger] p.trees[i]) is Internal && 0 <= j
            < p.trees[i]->kids.len() ==> stored(payloads, #[trigger] p.trees[i]->kids[j], order)
}

proof fn lemma_branch_halves_stored(payloads: Set<Seq<u8>>, p: Parts, limit: nat, order: u16)
    requires
        parts_stored(payloads, p, order),
        p.trees.len() == p.seps.len() + 1,
    ensures
        kids_stored(payloads, branch_halves(p, limit), order),
    decreases p.seps.len(),
{
    let n = p.seps.len() as int;
    if n > limit && n > 0 {
        let mid = n / 2;
        lemma_run_stored(payloads, p, 0, mid, order);
        lemma_run_stored(payloads, p, mid + 1, n, order);
        lemma_branch_halves_stored(payloads, run(p, 0, mid), limit, order);
        lemma_branch_halves_stored(payloads, run(p, mid + 1, n), limit, order);
        lemma_join_kids(
            payloads,
            branch_halves(run(p, 0, mid), limit),
            p.seps[mid],
            branch_halves(run(p, mid + 1, n), limit),
            order,
        );
    }
}

proof fn lemma_run_stored(payloads: Set<Seq<u8>>, p: Parts, from: int, to: int, order: u16)
    requires
        parts_stored(payloads, p, order),
        0 <= from <= to < p.trees.len(),
    ensures
        parts_stored(payloads, run(p, from, to), order),
{
    let q = run(p, from, to);
    assert forall|i: int| 0 <= i < q.trees.len() implies stored(
        payloads,
        #[trigger] q.trees[i],
        order,
    ) by {
        assert(q.trees[i] == p.trees[from + i]);
    }
}

proof fn lemma_join_kids(payloads: Set<Seq<u8>>, a: Parts, cut: Seq<u8>, b: Parts, order: u16)
    requires
        kids_stored(payloads, a, order),
        kids_stored(payloads, b, order),
    ensures
        kids_stored(payloads, join(a, cut, b), order),
{
    let p = join(a, cut, b);
    assert forall|i: int, j: int|
        0 <= i < p.trees.len() && (#[trigger] p.trees[i]) is Internal && 0 <= j
            < p.trees[i]->kids.len() implies stored(
        payloads,
        #[trigger] p.trees[i]->kids[j],
        order,
    ) by {
        if i < a.trees.len() {
            assert(p.trees[i] == a.trees[i]);
        } else {
            assert(p.trees[i] == b.trees[i - a.trees.len()]);
        }
    }
}

/// Parts whose own payloads are there, above stored children, are stored.
proof fn lemma_written_stored(payloads: Set<Seq<u8>>, p: Parts, order: u16)
    requires
        kids_stored(payloads, p, order),
        payloads_of(p.trees, order).to_set().subset_of(payloads),
    ensures
        parts_stored(payloads, p, order),
{
    let ns = payloads_of(p.trees, order);
    assert forall|i: int| 0 <= i < p.trees.len() implies stored(
        payloads,
        #[trigger] p.trees[i],
        order,
    ) by {
        assert(ns[i] == tree_bytes(p.trees[i], order));
        assert(ns.contains(ns[i]));
        assert(ns.to_set().contains(ns[i]));
    }
}

proof fn lemma_sub_puts(a: Seq<Seq<u8>>, b: Seq<Seq<u8>>, payloads: Set<Seq<u8>>)
    requires
        (a + b).to_set().subset_of(payloads),
    ensures
        a.to_set().subset_of(payloads),
        b.to_set().subset_of(payloads),
{
    let c = a + b;
    assert forall|x: Seq<u8>| #[trigger] a.to_set().contains(x) implies payloads.contains(x) by {
        let i = choose|i: int| 0 <= i < a.len() && a[i] == x;
        assert(c[i] == x);
        assert(c.to_set().contains(x));
    }
    assert forall|x: Seq<u8>| #[trigger] b.to_set().contains(x) implies payloads.contains(x) by {
        let i = choose|i: int| 0 <= i < b.len() && b[i] == x;
        assert(c[a.len() + i] == x);
        assert(c.to_set().contains(x));
    }
}

/// The payloads of the tree and those written for the batch hold what the batch makes
/// of the tree.
pub proof fn lemma_patch_stored(
    payloads: Set<Seq<u8>>,
    t: Tree,
    b: Ops,
    order: u16,
    limit: nat,
    f: u32,
    lo: Option<Seq<u8>>,
    hi: Option<Seq<u8>>,
)
    requires
        stored(payloads, t, order),
        patch_puts(t, b, order, limit).to_set().subset_of(payloads),
        ordered(t, lo, hi),
        sized(t, f),
        sorted(b),
        ops_encodable(b),
        forall|j: int| 0 <= j < b.len() ==> covers(lo, hi, (#[trigger] b[j]).0),
        1 <= order <= limit <= f,
        limit <= u16::MAX,
    ensures
        parts_stored(payloads, patched(t, b, order as nat, limit), order),
    decreases t, (if t is Internal { t->kids.len() + 1 } else { 0 }),
{
    match t {
        Tree::Leaf { entries } => {
            if !already_holds(entries, b) {
                let es = apply_ops(entries, b);
                let p = patched(t, b, order as nat, limit);
                if es.len() > 0 {
                    let mid = es.len() as int / 2;
                    lemma_halves_are_leaves(es.take(mid), limit);
                    lemma_halves_are_leaves(es.skip(mid), limit);
                    let x = leaf_halves(es.take(mid), limit);
                    let y = leaf_halves(es.skip(mid), limit);
                    assert forall|i: int| 0 <= i < p.trees.len() implies (#[trigger] p.trees[i]) is Leaf by {
                        if es.len() > order {
                            if i < x.trees.len() {
                                assert(p.trees[i] == x.trees[i]);
                            } else {
                                assert(p.trees[i] == y.trees[i - x.trees.len()]);
                            }
                        }
                    }
                }
                lemma_written_stored(payloads, p, order);
            }
        },
        Tree::Internal { seps, kids } => {
            let n = kids.len();
            let (p, changed) = patched_kids(seps, kids, n, b, order as nat, limit);
            let below = kids_puts(seps, kids, n, b, order, limit);
            if b.len() > 0 && changed {
                if p.trees.len() >= 2 {
                    let q = split_branch(p, order as nat, limit);
                    lemma_sub_puts(below, payloads_of(q.trees, order), payloads);
                    lemma_kids_stored(payloads, t, n, b, order, limit, f, lo, hi);
                    lemma_patched_kids(t, n, b, order as nat, limit, lo, hi, f);
                    let m = p.seps.len() as int;
                    let mid = m / 2;
                    if m > order {
                        lemma_run_stored(payloads, p, 0, mid, order);
                        lemma_run_stored(payloads, p, mid + 1, m, order);
                        lemma_branch_halves_stored(payloads, run(p, 0, mid), limit, order);
                        lemma_branch_halves_stored(payloads, run(p, mid + 1, m), limit, order);
                        lemma_join_kids(
                            payloads,
                            branch_halves(run(p, 0, mid), limit),
                            p.seps[mid],
                            branch_halves(run(p, mid + 1, m), limit),
                            order,
                        );
                    }
                    lemma_written_stored(payloads, q, order);
                } else {
                    lemma_kids_stored(payloads, t, n, b, order, limit, f, lo, hi);
                }
            }
        },
    }
}

/// The same of the first `n` children.
pub proof fn lemma_kids_stored(
    payloads: Set<Seq<u8>>,
    t: Tree,
    n: nat,
    b: Ops,
    order: u16,
    limit: nat,
    f: u32,
    lo: Option<Seq<u8>>,
    hi: Option<Seq<u8>>,
)
    requires
        t is Internal,
        n <= t->kids.len(),
        stored(payloads, t, order),
        kids_puts(t->seps, t->kids, n, b, order, limit).to_set().subset_of(payloads),
        ordered(t, lo, hi),
        sized(t, f),
        sorted(b),
        ops_encodable(b),
        forall|j: int| 0 <= j < b.len() ==> covers(lo, hi, (#[trigger] b[j]).0),
        1 <= order <= limit <= f,
        limit <= u16::MAX,
    ensures
        parts_stored(
            payloads,
            patched_kids(t->seps, t->kids, n, b, order as nat, limit).0,
            order,
        ),
    decreases t, n,
{
    if n > 0 {
        let ts = t->seps;
        let tk = t->kids;
        let i = n - 1;
        let part = part_of(ts, b, i);
        let a = patched_kids(ts, tk, i as nat, b, order as nat, limit).0;
        let q = patched(tk[i], part, order as nat, limit);
        lemma_sub_puts(
            kids_puts(ts, tk, i as nat, b, order, limit),
            patch_puts(tk[i], part, order, limit),
            payloads,
        );
        lemma_kids_stored(payloads, t, i as nat, b, order, limit, f, lo, hi);
        lemma_part(t, b, lo, hi, i);
        lemma_part_encodable(ts, b, i);
        lemma_patch_stored(
            payloads,
            tk[i],
            part,
            order,
            limit,
            f,
            kid_lo(ts, lo, i),
            kid_hi(ts, hi, i),
        );
        let r = append(a, ts[i - 1], q);
        assert forall|j: int| 0 <= j < r.trees.len() implies stored(
            payloads,
            #[trigger] r.trees[j],
            order,
        ) by {
            if q.trees.len() > 0 {
                if j < a.trees.len() {
                    assert(r.trees[j] == a.trees[j]);
                } else {
                    assert(r.trees[j] == q.trees[j - a.trees.len()]);
                }
            }
        }
    }
}

} // verus!
