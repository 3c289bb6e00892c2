//! Bulk construction and sorted-batch patching of the copy-on-write tree.

use vstd::prelude::*;

use crate::bytes::{bytes_equal, copy_bytes, lemma_lex_order, lex_less, lex_lt};
use crate::chunk::{zero_id, ChunkId};
use crate::index::{added, branch_of, fetch, grown, id_views, key_views, lemma_added_none,
    lemma_added_then, lemma_branch, lemma_kid_holds, pair_views, BTreeError, EntryPair,
    ObjectProvider};
use crate::index_edit::{lemma_clash_free_subset, matched, put_branch, put_leaf};
use crate::node::{leaf_encodable, pairs, Entry, Node};
use crate::patch::{append, branch_halves, join, kids_puts, leaf_halves, lemma_applied_holds,
    lemma_joined, lemma_next_part, lemma_no_puts, lemma_over, lemma_part, lemma_part_encodable,
    lemma_patch_stored, lemma_patched, lemma_run, listed, no_parts, node_limit, one, over, part_of,
    part_start, parts_ok, parts_stored, patch_puts, patched, patched_kids, payloads_of, run,
    split_branch, split_leaf, Parts};
use crate::sorted::{all_lt, already_holds, apply_ops, concat, erase, has_key, increasing,
    lemma_apply_context, lemma_apply_noop, lemma_apply_sorted, lemma_apply_split, lemma_concat_one, lemma_concat_split, lemma_rank_is,
    lookup, rank, sorted};
use crate::tree::{clash_free, coded, covers, flat, flats, height, holds, inside, kid_hi, kid_lo,
    lemma_flat, lemma_height_bound, lemma_ordered_flat, lemma_ordered_keyed, lemma_ordered_widen,
    lemma_sized_coded, lemma_stored_mono, lemma_tree_at, lemma_tree_unique, lists, max_height,
    ordered, seps_encodable, seps_inside, sized, stored, tree_at, tree_bytes, tree_id, tree_ids, Tree};

verus! {

/// One operation of a batch: bind the key, or remove it.
pub type BatchOp = (Vec<u8>, Option<Vec<u8>>);

pub open spec fn op_view(op: BatchOp) -> (Seq<u8>, Option<Seq<u8>>) {
    (
        op.0@,
        match op.1 {
            Some(v) => Some(v@),
            None => None,
        },
    )
}

pub open spec fn ops(batch: Seq<BatchOp>) -> Seq<(Seq<u8>, Option<Seq<u8>>)> {
    Seq::new(batch.len(), |i: int| op_view(batch[i]))
}

/// The keys and values that are bound are within the node format's length prefixes.
pub open spec fn ops_encodable(b: Seq<(Seq<u8>, Option<Seq<u8>>)>) -> bool {
    forall|i: int|
        0 <= i < b.len() ==> ((#[trigger] b[i]).1 matches Some(v) ==> b[i].0.len() <= u16::MAX
            && v.len() <= u32::MAX)
}

// ---------------------------------------------------------------------------
// Bulk load
// ---------------------------------------------------------------------------

/// `2^b`.
pub open spec fn pow2(b: nat) -> nat
    decreases b,
{
    if b == 0 {
        1
    } else {
        2 * pow2((b - 1) as nat)
    }
}

/// One level of a tree under construction: search trees side by side, each from
/// its leftmost key to the next one's.
pub open spec fn level_ok(
    payloads: Set<Seq<u8>>,
    level: Seq<(ChunkId, Vec<u8>)>,
    trees: Seq<Tree>,
    order: u16,
    max_fanout: u32,
    h: nat,
) -> bool {
    &&& trees.len() == level.len()
    &&& forall|i: int|
        0 <= i < level.len() ==> (#[trigger] level[i]).0@ == tree_id(trees[i], order)
            && level[i].1@.len() <= u16::MAX
    &&& forall|i: int|
        0 <= i < trees.len() ==> stored(payloads, #[trigger] trees[i], order) && sized(
            trees[i],
            max_fanout,
        ) && height(trees[i]) <= h
}

/// Leftmost keys increase, and every tree lies between its own and the next.
pub open spec fn level_ordered(level: Seq<(ChunkId, Vec<u8>)>, trees: Seq<Tree>) -> bool {
    &&& trees.len() == level.len()
    &&& increasing(lefts(level))
    &&& forall|i: int|
        0 <= i < trees.len() ==> ordered(
            #[trigger] trees[i],
            Some(lefts(level)[i]),
            if i + 1 < trees.len() {
                Some(lefts(level)[i + 1])
            } else {
                None
            },
        )
}

pub open spec fn lefts(level: Seq<(ChunkId, Vec<u8>)>) -> Seq<Seq<u8>> {
    Seq::new(level.len(), |i: int| level[i].1@)
}

/// The payloads of all nodes of the tree, children before parents.
pub open spec fn nodes_of(t: Tree, order: u16) -> Seq<Seq<u8>>
    decreases t, 0nat,
{
    match t {
        Tree::Leaf { .. } => seq![tree_bytes(t, order)],
        Tree::Internal { seps, kids } => nodes_upto(kids, kids.len(), order).push(
            tree_bytes(t, order),
        ),
    }
}

/// The payloads of all nodes of the first `n` trees.
pub open spec fn nodes_upto(kids: Seq<Tree>, n: nat, order: u16) -> Seq<Seq<u8>>
    decreases kids, n,
{
    if n == 0 || n > kids.len() {
        Seq::empty()
    } else {
        nodes_upto(kids, (n - 1) as nat, order) + nodes_of(kids[n - 1], order)
    }
}

proof fn lemma_nodes_prefix(a: Seq<Tree>, b: Seq<Tree>, n: nat, order: u16)
    requires
        n <= a.len(),
        n <= b.len(),
        forall|i: int| 0 <= i < n ==> a[i] == b[i],
    ensures
        nodes_upto(a, n, order) == nodes_upto(b, n, order),
    decreases n,
{
    if n > 0 {
        lemma_nodes_prefix(a, b, (n - 1) as nat, order);
    }
}

proof fn lemma_nodes_run(trees: Seq<Tree>, from: nat, to: nat, order: u16)
    requires
        from <= to <= trees.len(),
    ensures
        nodes_upto(trees, to, order) == nodes_upto(trees, from, order) + nodes_upto(
            trees.subrange(from as int, to as int),
            (to - from) as nat,
            order,
        ),
    decreases to - from,
{
    let r = trees.subrange(from as int, to as int);
    if from < to {
        lemma_nodes_run(trees, from, (to - 1) as nat, order);
        let q = trees.subrange(from as int, to - 1);
        lemma_nodes_prefix(q, r, (to - 1 - from) as nat, order);
        assert(r[to - 1 - from] == trees[to - 1]);
        assert(nodes_upto(trees, to, order) =~= nodes_upto(trees, from, order) + nodes_upto(
            r,
            (to - from) as nat,
            order,
        ));
    } else {
        assert(nodes_upto(trees, to, order) =~= nodes_upto(trees, from, order) + nodes_upto(
            r,
            0,
            order,
        ));
    }
}

/// As many of each.
pub open spec fn same_items(a: Seq<Seq<u8>>, b: Seq<Seq<u8>>) -> bool {
    a.to_multiset() =~= b.to_multiset()
}

proof fn lemma_items_add(a: Seq<Seq<u8>>, b: Seq<Seq<u8>>)
    ensures
        (a + b).to_multiset() == a.to_multiset().add(b.to_multiset()),
{
    vstd::seq_lib::lemma_multiset_commutative(a, b);
}

/// One more node over a run of trees: its own payload is all that is new.
proof fn lemma_nodes_raised(
    trees: Seq<Tree>,
    made: Seq<Tree>,
    t: Tree,
    from: nat,
    to: nat,
    order: u16,
)
    requires
        from <= to <= trees.len(),
        t is Internal,
        t->kids == trees.subrange(from as int, to as int),
        same_items(
            nodes_upto(made, made.len(), order),
            nodes_upto(trees, from, order) + payloads_of(made, order),
        ),
    ensures
        same_items(
            nodes_upto(made.push(t), made.len() + 1, order),
            nodes_upto(trees, to, order) + payloads_of(made.push(t), order),
        ),
{
    let k = nodes_upto(t->kids, (to - from) as nat, order);
    let x = seq![tree_bytes(t, order)];
    let a = nodes_upto(made, made.len(), order);
    let b = nodes_upto(trees, from, order);
    let c = payloads_of(made, order);
    lemma_nodes_prefix(made, made.push(t), made.len(), order);
    lemma_nodes_run(trees, from, to, order);
    assert(nodes_of(t, order) =~= k + x);
    assert(nodes_upto(made.push(t), made.len() + 1, order) =~= a + (k + x));
    assert(payloads_of(made.push(t), order) =~= c + x);
    lemma_items_add(a, k + x);
    lemma_items_add(k, x);
    lemma_items_add(b, c);
    lemma_items_add(b + k, c + x);
    lemma_items_add(b, k);
    lemma_items_add(c, x);
}

proof fn lemma_sized_wider(t: Tree, f: u32, g: u32)
    requires
        sized(t, f),
        f <= g,
    ensures
        sized(t, g),
    decreases t,
{
    if let Tree::Internal { seps, kids } = t {
        assert forall|i: int| 0 <= i < kids.len() implies sized(#[trigger] kids[i], g) by {
            lemma_sized_wider(kids[i], f, g);
        }
    }
}

/// What was put since `was`.
pub open spec fn put_since<P: ObjectProvider>(was: &P, now: &P) -> Seq<Seq<u8>> {
    now.puts().skip(was.puts().len() as int)
}

/// The tree `t` at `id` lists the entries, no node of it has more than `order`, and its
/// nodes are exactly `ns`, each once.
pub open spec fn loaded(
    id: Seq<u8>,
    order: u16,
    entries: Seq<(Seq<u8>, Seq<u8>)>,
    ns: Seq<Seq<u8>>,
    t: Tree,
) -> bool {
    &&& id == tree_id(t, order)
    &&& same_items(ns, nodes_of(t, order))
    &&& sized(t, order as u32)
    &&& sorted(entries) ==> ordered(t, None, None) && flat(t) == entries
}

/// Some tree at `id` is so loaded.
pub open spec fn loads(
    id: Seq<u8>,
    order: u16,
    entries: Seq<(Seq<u8>, Seq<u8>)>,
    ns: Seq<Seq<u8>>,
) -> bool {
    exists|t: Tree| #[trigger] loaded(id, order, entries, ns, t)
}

/// Bulk-build a tree from sorted entries, staging each final node exactly once:
/// leaves hold up to `order` entries, internal nodes up to `order` separators,
/// separators are the leftmost key of each right child. Empty input yields the
/// zero root.
pub fn bulk_load<P: ObjectProvider>(
    entries: &[EntryPair],
    order: u16,
    max_fanout: u32,
    provider: &mut P,
) -> (r: Result<ChunkId, BTreeError>)
    requires
        leaf_encodable(pair_views(entries@)),
    ensures
        grown(old(provider), final(provider)),
        r is Err <==> entries@.len() > 0 && (order == 0 || order > max_fanout),
        r matches Err(e) ==> e is Invariant && final(provider).payloads() == old(provider).payloads(),
        r matches Ok(id) ==> sorted(pair_views(entries@)) && clash_free(final(provider).payloads())
            ==> lists(
            final(provider).payloads(),
            id@,
            order,
            max_fanout,
            65,
            pair_views(entries@),
        ),
        r matches Ok(id) ==> entries@.len() == 0 ==> id@ == zero_id() && *final(provider) == *old(
            provider,
        ),
        r is Ok && old(provider).faithful() ==> added(
            old(provider),
            final(provider),
            put_since(old(provider), final(provider)),
        ),
        r is Ok && old(provider).faithful() && entries@.len() > 0 ==> loads(
            r->Ok_0@,
            order,
            pair_views(entries@),
            put_since(old(provider), final(provider)),
        ),
{
    if entries.len() == 0 {
        proof {
            lemma_added_none(provider);
            if provider.faithful() {
                assert(put_since(old(provider), provider) =~= Seq::empty());
            }
        }
        return Ok(ChunkId::zero());
    }
    if order == 0 {
        return Err(BTreeError::Invariant("zero order".to_string()));
    }
    if order as u32 > max_fanout {
        return Err(BTreeError::Invariant("order exceeds max fanout".to_string()));
    }
    let ghost all = pair_views(entries@);
    let most: u32 = order as u32;
    let (mut level, leaf_trees) = load_leaves(entries, order, most, provider);
    let ghost mut trees: Seq<Tree> = leaf_trees@;
    let ghost mut ns: Seq<Seq<u8>> = payloads_of(trees, order);
    let ghost mut b: nat = 64;
    proof {
        lemma_pow2_64();
    }
    while level.len() > 1
        invariant
            level@.len() >= 1,
            1 <= order <= max_fanout,
            b <= 64,
            level@.len() <= pow2(b),
            grown(old(provider), provider),
            most == order,
            level_ok(provider.payloads(), level@, trees, order, most, (65 - b) as nat),
            added(old(provider), provider, ns),
            same_items(ns, nodes_upto(trees, trees.len(), order)),
            sorted(all) ==> level_ordered(level@, trees),
            sorted(all) ==> concat(flats(trees)) == all,
        decreases level@.len(),
    {
        let ghost before = *provider;
        let (next, next_trees) = load_level(
            &level,
            order,
            most,
            provider,
            Ghost(trees),
            Ghost((65 - b) as nat),
        );
        proof {
            assert(b >= 1);
            b = (b - 1) as nat;
            let more = payloads_of(next_trees@, order);
            lemma_added_then(old(provider), &before, provider, ns, more);
            lemma_items_add(ns, more);
            lemma_items_add(nodes_upto(trees, trees.len(), order), more);
            ns = ns + more;
            trees = next_trees@;
        }
        level = next;
    }
    let root = level[0].0;
    proof {
        let t = trees[0];
        assert(level@[0].0@ == tree_id(t, order));
        assert(nodes_upto(trees, 1, order) =~= nodes_of(t, order)) by {
            assert(nodes_upto(trees, 0, order) =~= Seq::empty());
        }
        lemma_sized_wider(t, most, max_fanout);
        if sorted(all) {
            lemma_lex_order();
            lemma_ordered_widen(t, Some(lefts(level@)[0]), None, None, None);
            assert(flats(trees) =~= seq![flat(t)]);
            lemma_concat_one(flat(t));
            assert(provider.payloads().contains(tree_bytes(t, order)));
            assert(holds(provider.payloads(), root@, t, order, max_fanout, None, None));
        }
        if old(provider).faithful() {
            assert(put_since(old(provider), provider) =~= ns);
        }
        assert(loaded(root@, order, all, ns, t));
        assert(loads(root@, order, all, ns));
    }
    Ok(root)
}

proof fn lemma_pow2_64()
    ensures
        pow2(64) == 0x1_0000_0000_0000_0000,
{
    reveal_with_fuel(pow2, 65);
}

/// The leaves over `entries`, `order` to a leaf.
#[verifier::rlimit(80)]
#[verifier::spinoff_prover]
fn load_leaves<P: ObjectProvider>(
    entries: &[EntryPair],
    order: u16,
    max_fanout: u32,
    provider: &mut P,
) -> (out: (Vec<(ChunkId, Vec<u8>)>, Ghost<Seq<Tree>>))
    requires
        leaf_encodable(pair_views(entries@)),
        1 <= order <= max_fanout,
        entries@.len() > 0,
    ensures
        grown(old(provider), final(provider)),
        1 <= out.0@.len() <= entries@.len(),
        level_ok(final(provider).payloads(), out.0@, out.1@, order, max_fanout, 1),
        added(old(provider), final(provider), payloads_of(out.1@, order)),
        same_items(payloads_of(out.1@, order), nodes_upto(out.1@, out.1@.len(), order)),
        sorted(pair_views(entries@)) ==> level_ordered(out.0@, out.1@) && concat(flats(out.1@))
            == pair_views(entries@),
{
    let ghost all = pair_views(entries@);
    let mut level: Vec<(ChunkId, Vec<u8>)> = Vec::new();
    let ghost mut trees: Seq<Tree> = Seq::empty();
    let mut i: usize = 0;
    proof {
        assert(flats(trees) =~= Seq::empty());
        assert(concat(flats(trees)) =~= all.take(0));
        lemma_added_none(provider);
        assert(payloads_of(trees, order) =~= Seq::empty());
    }
    while i < entries.len()
        invariant
            i <= entries@.len(),
            all == pair_views(entries@),
            leaf_encodable(all),
            1 <= order <= max_fanout,
            grown(old(provider), provider),
            level@.len() <= i,
            i > 0 ==> level@.len() > 0,
            level_ok(provider.payloads(), level@, trees, order, max_fanout, 1),
            added(old(provider), provider, payloads_of(trees, order)),
            payloads_of(trees, order) == nodes_upto(trees, trees.len(), order),
            concat(flats(trees)) == all.take(i as int),
            sorted(all) ==> increasing(lefts(level@)),
            sorted(all) ==> forall|j: int|
                0 <= j < trees.len() ==> ordered(
                    #[trigger] trees[j],
                    Some(lefts(level@)[j]),
                    if j + 1 < trees.len() {
                        Some(lefts(level@)[j + 1])
                    } else if i < all.len() {
                        Some(all[i as int].0)
                    } else {
                        None
                    },
                ),
            sorted(all) && i < all.len() ==> forall|j: int|
                0 <= j < level@.len() ==> lex_lt(#[trigger] lefts(level@)[j], all[i as int].0),
        decreases entries@.len() - i,
    {
        let n: usize = if entries.len() - i < order as usize {
            entries.len() - i
        } else {
            order as usize
        };
        let mut chunk: Vec<Entry> = Vec::with_capacity(n);
        let total: usize = entries.len();
        let mut k: usize = 0;
        while k < n
            invariant
                k <= n,
                i + n <= total,
                total == entries@.len(),
                all == pair_views(entries@),
                chunk@.len() == k,
                pairs(chunk@) == all.subrange(i as int, i + k),
            decreases n - k,
        {
            let e = &entries[i + k];
            let ghost had = pairs(chunk@);
            chunk.push(Entry { key: copy_bytes(&e.0), value: copy_bytes(&e.1) });
            proof {
                assert(pairs(chunk@) =~= had.push((e.0@, e.1@)));
                assert(all.subrange(i as int, i + k + 1) =~= had.push(all[i + k]));
            }
            k += 1;
        }
        let ghost es = pairs(chunk@);
        proof {
            assert forall|j: int| 0 <= j < es.len() implies (#[trigger] es[j]).0.len() <= u16::MAX
                && es[j].1.len() <= u32::MAX by {
                assert(es[j] == all[i + j]);
            }
            assert(all[i as int] == (entries@[i as int].0@, entries@[i as int].1@));
        }
        let leftmost = copy_bytes(&entries[i].0);
        let ghost t = Tree::Leaf { entries: es };
        let ghost p0 = provider.payloads();
        let ghost before = *provider;
        let id = put_leaf(provider, chunk, order);
        let ghost lv = level@;
        let ghost ts = trees;
        level.push((id, leftmost));
        proof {
            trees = trees.push(t);
            let p1 = provider.payloads();
            assert forall|j: int| 0 <= j < trees.len() implies stored(
                p1,
                #[trigger] trees[j],
                order,
            ) && sized(trees[j], max_fanout) && height(trees[j]) <= 1 by {
                if j < ts.len() {
                    assert(trees[j] == ts[j]);
                    lemma_stored_mono(p0, p1, ts[j], order);
                }
            }
            assert forall|j: int| 0 <= j < level@.len() implies (#[trigger] level@[j]).0@
                == tree_id(trees[j], order) && level@[j].1@.len() <= u16::MAX by {
                if j < lv.len() {
                    assert(level@[j] == lv[j]);
                    assert(trees[j] == ts[j]);
                }
            }
            assert(flats(trees).drop_last() =~= flats(ts));
            assert(concat(flats(trees)) =~= all.take(i + n));
            assert(payloads_of(trees, order) =~= payloads_of(ts, order) + seq![tree_bytes(t, order)]);
            lemma_added_then(
                old(provider),
                &before,
                provider,
                payloads_of(ts, order),
                seq![tree_bytes(t, order)],
            );
            lemma_nodes_prefix(ts, trees, ts.len(), order);
            assert(nodes_of(t, order) == seq![tree_bytes(t, order)]);
            if sorted(all) {
                lemma_lex_order();
                let le = lefts(level@);
                assert forall|x: int, y: int| #![trigger le[x], le[y]]
                    0 <= x < y < le.len() implies lex_lt(le[x], le[y]) by {
                    assert(le[x] == lefts(lv)[x]);
                    if y < lv.len() {
                        assert(le[y] == lefts(lv)[y]);
                    }
                }
                assert forall|j: int| 0 <= j < trees.len() implies ordered(
                    #[trigger] trees[j],
                    Some(le[j]),
                    if j + 1 < trees.len() {
                        Some(le[j + 1])
                    } else if i + n < all.len() {
                        Some(all[i + n].0)
                    } else {
                        None
                    },
                ) by {
                    if j < ts.len() {
                        assert(trees[j] == ts[j]);
                        assert(le[j] == lefts(lv)[j]);
                        if j + 1 < ts.len() {
                            assert(le[j + 1] == lefts(lv)[j + 1]);
                        }
                    } else {
                        assert forall|x: int, y: int| #![trigger es[x], es[y]]
                            0 <= x < y < es.len() implies lex_lt(es[x].0, es[y].0) by {
                            assert(es[x] == all[i + x] && es[y] == all[i + y]);
                        }
                        assert forall|x: int| 0 <= x < es.len() implies !lex_lt(
                            (#[trigger] es[x]).0,
                            all[i as int].0,
                        ) && (i + n < all.len() ==> lex_lt(es[x].0, all[i + n].0)) by {
                            assert(es[x] == all[i + x]);
                            if x > 0 {
                                assert(lex_lt(all[i as int].0, all[i + x].0));
                            }
                        }
                    }
                }
                if i + n < all.len() {
                    assert forall|j: int| 0 <= j < le.len() implies lex_lt(
                        #[trigger] le[j],
                        all[i + n].0,
                    ) by {
                        assert(lex_lt(all[i as int].0, all[i + n].0));
                        if j < lv.len() {
                            assert(le[j] == lefts(lv)[j]);
                        }
                    }
                }
            }
        }
        i += n;
    }
    assert(all.take(i as int) =~= all);
    (level, Ghost(trees))
}

/// A run of one level, as an internal node over it.
spec fn run_tree(level: Seq<(ChunkId, Vec<u8>)>, trees: Seq<Tree>, from: int, to: int) -> Tree {
    Tree::Internal {
        seps: lefts(level).subrange(from + 1, to),
        kids: trees.subrange(from, to),
    }
}

proof fn lemma_run_tree(
    payloads: Set<Seq<u8>>,
    level: Seq<(ChunkId, Vec<u8>)>,
    trees: Seq<Tree>,
    order: u16,
    max_fanout: u32,
    h: nat,
    from: int,
    to: int,
)
    requires
        level_ok(payloads, level, trees, order, max_fanout, h),
        0 <= from < to <= level.len(),
        to - from <= order + 1,
        order <= max_fanout,
    ensures
        sized(run_tree(level, trees, from, to), max_fanout),
        height(run_tree(level, trees, from, to)) <= h + 1,
        flat(run_tree(level, trees, from, to)) == concat(flats(trees).subrange(from, to)),
        level_ordered(level, trees) ==> ordered(
            run_tree(level, trees, from, to),
            Some(lefts(level)[from]),
            if to < level.len() {
                Some(lefts(level)[to])
            } else {
                None
            },
        ),
{
    let le = lefts(level);
    let seps = le.subrange(from + 1, to);
    let kids = trees.subrange(from, to);
    let t = run_tree(level, trees, from, to);
    assert forall|i: int| 0 <= i < seps.len() implies (#[trigger] seps[i]).len() <= u16::MAX by {
        assert(seps[i] == level[from + 1 + i].1@);
    }
    assert forall|i: int| 0 <= i < kids.len() implies sized(#[trigger] kids[i], max_fanout)
        && height(kids[i]) <= h by {
        assert(kids[i] == trees[from + i]);
    }
    lemma_height_bound(seps, kids, h);
    lemma_flat(seps, kids);
    assert(flats(kids) =~= flats(trees).subrange(from, to));
    if level_ordered(level, trees) {
        lemma_run_ordered(level, trees, from, to);
    }
}

proof fn lemma_run_ordered(
    level: Seq<(ChunkId, Vec<u8>)>,
    trees: Seq<Tree>,
    from: int,
    to: int,
)
    requires
        level_ordered(level, trees),
        0 <= from < to <= level.len(),
    ensures
        ordered(
            run_tree(level, trees, from, to),
            Some(lefts(level)[from]),
            if to < level.len() {
                Some(lefts(level)[to])
            } else {
                None
            },
        ),
{
    let le = lefts(level);
    let seps = le.subrange(from + 1, to);
    let kids = trees.subrange(from, to);
    let lo = Some(le[from]);
    let hi = if to < level.len() {
        Some(le[to])
    } else {
        None
    };
    assert(increasing(seps)) by {
        assert forall|i: int, j: int| #![trigger seps[i], seps[j]]
            0 <= i < j < seps.len() implies lex_lt(seps[i], seps[j]) by {
            assert(seps[i] == le[from + 1 + i] && seps[j] == le[from + 1 + j]);
        }
    }
    assert(seps_inside(seps, lo, hi)) by {
        assert forall|i: int| 0 <= i < seps.len() implies inside(lo, hi, #[trigger] seps[i]) by {
            assert(seps[i] == le[from + 1 + i]);
            assert(lex_lt(le[from], le[from + 1 + i]));
            if to < level.len() {
                assert(lex_lt(le[from + 1 + i], le[to]));
            }
        }
    }
    assert forall|i: int| 0 <= i < kids.len() implies ordered(
        #[trigger] kids[i],
        kid_lo(seps, lo, i),
        kid_hi(seps, hi, i),
    ) by {
        let j = from + i;
        assert(kids[i] == trees[j]);
        assert(kid_lo(seps, lo, i) == Some(le[j])) by {
            if i > 0 {
                assert(seps[i - 1] == le[j]);
            }
        }
        assert(kid_hi(seps, hi, i) == if j + 1 < trees.len() {
            Some(le[j + 1])
        } else {
            None
        }) by {
            if i < seps.len() {
                assert(seps[i] == le[j + 1]);
            }
        }
    }
}

/// Groups the nodes of one level under internal nodes of `order + 1` children.
#[verifier::rlimit(80)]
#[verifier::spinoff_prover]
fn load_level<P: ObjectProvider>(
    level: &Vec<(ChunkId, Vec<u8>)>,
    order: u16,
    max_fanout: u32,
    provider: &mut P,
    Ghost(trees): Ghost<Seq<Tree>>,
    Ghost(h): Ghost<nat>,
) -> (out: (Vec<(ChunkId, Vec<u8>)>, Ghost<Seq<Tree>>))
    requires
        1 <= order <= max_fanout,
        level@.len() > 1,
        level_ok(old(provider).payloads(), level@, trees, order, max_fanout, h),
    ensures
        grown(old(provider), final(provider)),
        1 <= out.0@.len() < level@.len(),
        2 * out.0@.len() <= level@.len() + 1,
        level_ok(final(provider).payloads(), out.0@, out.1@, order, max_fanout, h + 1),
        added(old(provider), final(provider), payloads_of(out.1@, order)),
        same_items(
            nodes_upto(out.1@, out.1@.len(), order),
            nodes_upto(trees, trees.len(), order) + payloads_of(out.1@, order),
        ),
        level_ordered(level@, trees) ==> level_ordered(out.0@, out.1@) && concat(flats(out.1@))
            == concat(flats(trees)),
{
    let per_node: usize = order as usize + 1;
    let ghost fs = flats(trees);
    let ghost le = lefts(level@);
    let ghost p0 = provider.payloads();
    let mut next: Vec<(ChunkId, Vec<u8>)> = Vec::new();
    let ghost mut made: Seq<Tree> = Seq::empty();
    let mut i: usize = 0;
    proof {
        assert(flats(made) =~= Seq::empty());
        assert(fs.take(0) =~= Seq::empty());
        lemma_added_none(provider);
        assert(payloads_of(made, order) =~= Seq::empty());
        assert(nodes_upto(trees, 0, order) + payloads_of(made, order) =~= Seq::empty());
    }
    while i < level.len()
        invariant
            i <= level@.len(),
            per_node == order + 1,
            1 <= order <= max_fanout,
            level@.len() > 1,
            fs == flats(trees),
            le == lefts(level@),
            grown(old(provider), provider),
            p0 == old(provider).payloads(),
            level_ok(p0, level@, trees, order, max_fanout, h),
            2 * next@.len() <= i + 1,
            i < level@.len() ==> 2 * next@.len() <= i,
            i > 0 ==> next@.len() > 0,
            level_ok(provider.payloads(), next@, made, order, max_fanout, h + 1),
            added(old(provider), provider, payloads_of(made, order)),
            same_items(
                nodes_upto(made, made.len(), order),
                nodes_upto(trees, i as nat, order) + payloads_of(made, order),
            ),
            concat(flats(made)) == concat(fs.take(i as int)),
            level_ordered(level@, trees) ==> increasing(lefts(next@)),
            level_ordered(level@, trees) ==> forall|j: int|
                0 <= j < made.len() ==> ordered(
                    #[trigger] made[j],
                    Some(lefts(next@)[j]),
                    if j + 1 < made.len() {
                        Some(lefts(next@)[j + 1])
                    } else if i < level@.len() {
                        Some(le[i as int])
                    } else {
                        None
                    },
                ),
            level_ordered(level@, trees) && i < level@.len() ==> forall|j: int|
                0 <= j < next@.len() ==> lex_lt(#[trigger] lefts(next@)[j], le[i as int]),
        decreases level@.len() - i,
    {
        let n: usize = if level.len() - i < per_node {
            level.len() - i
        } else {
            per_node
        };
        let ghost p1 = provider.payloads();
        proof {
            assert forall|j: int| 0 <= j < trees.len() implies stored(
                p1,
                #[trigger] trees[j],
                order,
            ) && coded(trees[j]) by {
                lemma_sized_coded(trees[j], max_fanout);
                lemma_stored_mono(p0, p1, trees[j], order);
            }
        }
        let ghost before = *provider;
        let (id, leftmost) = put_run(level, i, i + n, order, provider, Ghost(trees));
        let ghost t = run_tree(level@, trees, i as int, i + n);
        let ghost nx = next@;
        let ghost md = made;
        next.push((id, leftmost));
        proof {
            lemma_run_tree(p0, level@, trees, order, max_fanout, h, i as int, i + n);
            made = made.push(t);
            let p2 = provider.payloads();
            assert forall|j: int| 0 <= j < made.len() implies stored(p2, #[trigger] made[j], order)
                && sized(made[j], max_fanout) && height(made[j]) <= h + 1 by {
                if j < md.len() {
                    assert(made[j] == md[j]);
                    lemma_stored_mono(p1, p2, md[j], order);
                }
            }
            assert forall|j: int| 0 <= j < next@.len() implies (#[trigger] next@[j]).0@ == tree_id(
                made[j],
                order,
            ) && next@[j].1@.len() <= u16::MAX by {
                if j < nx.len() {
                    assert(next@[j] == nx[j]);
                    assert(made[j] == md[j]);
                } else {
                    assert(level@[i as int].1@.len() <= u16::MAX);
                }
            }
            assert(payloads_of(made, order) =~= payloads_of(md, order) + seq![tree_bytes(t, order)]);
            lemma_added_then(
                old(provider),
                &before,
                provider,
                payloads_of(md, order),
                seq![tree_bytes(t, order)],
            );
            lemma_nodes_raised(trees, md, t, i as nat, (i + n) as nat, order);
            assert(flats(made).drop_last() =~= flats(md));
            assert(fs.take(i + n) =~= fs.take(i as int) + fs.subrange(i as int, i + n));
            lemma_concat_split(fs.take(i as int), fs.subrange(i as int, i + n));
            if level_ordered(level@, trees) {
                lemma_lex_order();
                let ln = lefts(next@);
                assert(le[i as int] == level@[i as int].1@);
                assert forall|x: int, y: int| #![trigger ln[x], ln[y]]
                    0 <= x < y < ln.len() implies lex_lt(ln[x], ln[y]) by {
                    assert(ln[x] == lefts(nx)[x]);
                    if y < nx.len() {
                        assert(ln[y] == lefts(nx)[y]);
                    }
                }
                assert forall|j: int| 0 <= j < made.len() implies ordered(
                    #[trigger] made[j],
                    Some(ln[j]),
                    if j + 1 < made.len() {
                        Some(ln[j + 1])
                    } else if i + n < level@.len() {
                        Some(le[i + n])
                    } else {
                        None
                    },
                ) by {
                    if j < md.len() {
                        assert(made[j] == md[j]);
                        assert(ln[j] == lefts(nx)[j]);
                        if j + 1 < md.len() {
                            assert(ln[j + 1] == lefts(nx)[j + 1]);
                        }
                    }
                }
                if i + n < level@.len() {
                    assert forall|j: int| 0 <= j < ln.len() implies lex_lt(
                        #[trigger] ln[j],
                        le[i + n],
                    ) by {
                        assert(lex_lt(le[i as int], le[i + n]));
                        if j < nx.len() {
                            assert(ln[j] == lefts(nx)[j]);
                        }
                    }
                }
            }
        }
        i += n;
    }
    assert(fs.take(i as int) =~= fs);
    (next, Ghost(made))
}

/// Writes the internal node over `level[from..to]`.
fn put_run<P: ObjectProvider>(
    level: &Vec<(ChunkId, Vec<u8>)>,
    from: usize,
    to: usize,
    order: u16,
    provider: &mut P,
    Ghost(trees): Ghost<Seq<Tree>>,
) -> (out: (ChunkId, Vec<u8>))
    requires
        from < to <= level@.len(),
        trees.len() == level@.len(),
        forall|i: int|
            0 <= i < level@.len() ==> (#[trigger] level@[i]).0@ == tree_id(trees[i], order)
                && level@[i].1@.len() <= u16::MAX,
        forall|i: int| 0 <= i < trees.len() ==> coded(#[trigger] trees[i]),
    ensures
        grown(old(provider), final(provider)),
        out.1@ == lefts(level@)[from as int],
        added(
            old(provider),
            final(provider),
            seq![tree_bytes(run_tree(level@, trees, from as int, to as int), order)],
        ),
        (forall|i: int|
            0 <= i < trees.len() ==> stored(old(provider).payloads(), #[trigger] trees[i], order))
            ==> out.0@ == tree_id(run_tree(level@, trees, from as int, to as int), order) && stored(
            final(provider).payloads(),
            run_tree(level@, trees, from as int, to as int),
            order,
        ),
{
    let mut seps: Vec<Vec<u8>> = Vec::with_capacity(to - from);
    let mut kids: Vec<ChunkId> = Vec::with_capacity(to - from);
    kids.push(level[from].0);
    let mut i: usize = from + 1;
    while i < to
        invariant
            from < i <= to <= level@.len(),
            seps@.len() == i - from - 1,
            kids@.len() == i - from,
            forall|j: int| 0 <= j < seps@.len() ==> (#[trigger] seps@[j])@ == level@[from + 1 + j].1@,
            forall|j: int| 0 <= j < kids@.len() ==> (#[trigger] kids@[j])@ == level@[from + j].0@,
        decreases to - i,
    {
        seps.push(copy_bytes(&level[i].1));
        kids.push(level[i].0);
        i += 1;
    }
    let last: usize = kids.len() - 1;
    let ghost sub = trees.subrange(from as int, to as int);
    let ghost t = run_tree(level@, trees, from as int, to as int);
    proof {
        let ks = key_views(seps@);
        assert forall|j: int| 0 <= j < ks.len() implies (#[trigger] ks[j]).len() <= u16::MAX by {
            assert(ks[j] == seps@[j]@);
            assert(level@[from + 1 + j].1@.len() <= u16::MAX);
        }
        assert(ks =~= lefts(level@).subrange(from + 1, to as int));
        assert(ks.subrange(0, last as int) =~= ks);
        assert(sub.subrange(0, last + 1) =~= sub);
        assert(id_views(kids@) =~= tree_ids(sub, order)) by {
            assert forall|j: int| 0 <= j < sub.len() implies id_views(kids@)[j] == tree_ids(
                sub,
                order,
            )[j] by {
                assert(id_views(kids@)[j] == kids@[j]@);
                assert(level@[from + j].0@ == tree_id(trees[from + j], order));
            }
        }
        if forall|i: int|
            0 <= i < trees.len() ==> stored(provider.payloads(), #[trigger] trees[i], order) {
            assert forall|j: int| 0 <= j < sub.len() implies id_views(kids@)[j] == tree_id(
                #[trigger] sub[j],
                order,
            ) && stored(provider.payloads(), sub[j], order) && coded(sub[j]) by {
                assert(sub[j] == trees[from + j]);
                assert(id_views(kids@)[j] == kids@[j]@);
                assert(level@[from + j].0@ == tree_id(trees[from + j], order));
            }
        }
    }
    let id = put_branch(provider, &seps, &kids, 0, last, order, Ghost(sub));
    (id, copy_bytes(&level[from].1))
}

// ---------------------------------------------------------------------------
// Merging a batch into a leaf
// ---------------------------------------------------------------------------

/// An entry below every key of the batch stays in front.
proof fn lemma_merge_keep<V>(
    s: Seq<(Seq<u8>, V)>,
    b: Seq<(Seq<u8>, Option<V>)>,
)
    requires
        sorted(s),
        s.len() > 0,
        sorted(b),
        b.len() > 0 ==> lex_lt(s[0].0, b[0].0),
    ensures
        apply_ops(s, b) == seq![s[0]] + apply_ops(s.drop_first(), b),
{
    lemma_lex_order();
    let a = seq![s[0]];
    let m = s.drop_first();
    let c = Seq::<(Seq<u8>, V)>::empty();
    assert(a + m + c =~= s);
    assert forall|i: int| 0 <= i < b.len() implies all_lt(a, (#[trigger] b[i]).0) by {
        if i > 0 {
            assert(lex_lt(b[0].0, b[i].0));
        }
    }
    lemma_apply_context(a, m, c, b);
    assert(a + apply_ops(m, b) + c =~= a + apply_ops(m, b));
}

/// The first operation of a batch, at or below every key of the listing.
proof fn lemma_merge_op<V>(s: Seq<(Seq<u8>, V)>, b: Seq<(Seq<u8>, Option<V>)>)
    requires
        sorted(s),
        sorted(b),
        b.len() > 0,
        s.len() > 0 ==> !lex_lt(s[0].0, b[0].0),
    ensures
        ({
            let here = s.len() > 0 && s[0].0 == b[0].0;
            let rest = if here {
                s.drop_first()
            } else {
                s
            };
            apply_ops(s, b) == match b[0].1 {
                Some(v) => seq![(b[0].0, v)] + apply_ops(rest, b.drop_first()),
                None => apply_ops(rest, b.drop_first()),
            }
        }),
{
    lemma_lex_order();
    let k = b[0].0;
    let here = s.len() > 0 && s[0].0 == k;
    let rest = if here {
        s.drop_first()
    } else {
        s
    };
    let b2 = b.drop_first();
    assert(b =~= seq![b[0]] + b2);
    lemma_apply_split(s, seq![b[0]], b2);
    lemma_rank_is(s, k, 0);
    let one = apply_ops(s, seq![b[0]]);
    assert(seq![b[0]].drop_last() =~= Seq::empty());
    assert(apply_ops(s, seq![b[0]].drop_last()) == s);
    match b[0].1 {
        Some(v) => {
            assert(one =~= seq![(k, v)] + rest);
            lemma_apply_sorted(s, seq![b[0]]);
            assert forall|i: int, j: int| #![trigger b2[i], b2[j]]
                0 <= i < j < b2.len() implies lex_lt(b2[i].0, b2[j].0) by {
                assert(b2[i] == b[i + 1] && b2[j] == b[j + 1]);
            }
            if b2.len() > 0 {
                assert(b2[0] == b[1]);
            }
            lemma_merge_keep(one, b2);
            assert(one.drop_first() =~= rest);
        },
        None => {
            assert(one =~= rest);
        },
    }
}

/// Merges `batch[from..to]` into the entries of a leaf: a sorted walk over both
/// lists. The second result says whether anything changed.
fn merge_leaf(
    entries: &Vec<Entry>,
    batch: &[BatchOp],
    from: usize,
    to: usize,
) -> (out: (Vec<Entry>, bool))
    requires
        from <= to <= batch@.len(),
        sorted(pairs(entries@)),
        leaf_encodable(pairs(entries@)),
        sorted(ops(batch@)),
        ops_encodable(ops(batch@)),
    ensures
        pairs(out.0@) == apply_ops(
            pairs(entries@),
            ops(batch@).subrange(from as int, to as int),
        ),
        leaf_encodable(pairs(out.0@)),
        out.0@.len() <= entries@.len() + (to - from),
        !out.1 ==> pairs(out.0@) == pairs(entries@),
        already_holds(pairs(entries@), ops(batch@).subrange(from as int, to as int)) ==> !out.1,
{
    let ghost es = pairs(entries@);
    let ghost b = ops(batch@).subrange(from as int, to as int);
    let mut out: Vec<Entry> = Vec::new();
    let mut changed = false;
    let mut ei: usize = 0;
    let mut bi: usize = from;
    proof {
        assert forall|i: int, j: int| #![trigger b[i], b[j]] 0 <= i < j < b.len() implies lex_lt(
            b[i].0,
            b[j].0,
        ) by {
            assert(b[i] == ops(batch@)[from + i] && b[j] == ops(batch@)[from + j]);
        }
        assert(es.skip(0) =~= es);
        assert(b.skip(0) =~= b);
        assert(pairs(out@) =~= Seq::empty());
        assert(es.take(0) =~= Seq::empty());
        assert(pairs(out@) + apply_ops(es, b) =~= apply_ops(es, b));
    }
    while ei < entries.len() || bi < to
        invariant
            ei <= entries@.len(),
            from <= bi <= to <= batch@.len(),
            es == pairs(entries@),
            b == ops(batch@).subrange(from as int, to as int),
            sorted(es),
            sorted(b),
            leaf_encodable(es),
            ops_encodable(ops(batch@)),
            leaf_encodable(pairs(out@)),
            out@.len() <= ei + (bi - from),
            pairs(out@) + apply_ops(es.skip(ei as int), b.skip(bi - from)) == apply_ops(es, b),
            !changed ==> pairs(out@) == es.take(ei as int),
            already_holds(es, b) ==> !changed,
            ei > 0 && bi < to ==> lex_lt(es[ei - 1].0, b[bi - from].0),
        decreases entries@.len() - ei + (to - bi),
    {
        let ghost s1 = es.skip(ei as int);
        let ghost b1 = b.skip(bi - from);
        let ghost had = pairs(out@);
        proof {
            lemma_lex_order();
            assert forall|i: int, j: int| #![trigger s1[i], s1[j]]
                0 <= i < j < s1.len() implies lex_lt(s1[i].0, s1[j].0) by {
                assert(s1[i] == es[ei + i] && s1[j] == es[ei + j]);
            }
            assert forall|i: int, j: int| #![trigger b1[i], b1[j]]
                0 <= i < j < b1.len() implies lex_lt(b1[i].0, b1[j].0) by {
                assert(b1[i] == b[bi - from + i] && b1[j] == b[bi - from + j]);
            }
            if ei < entries@.len() {
                assert(s1[0] == es[ei as int]);
                assert(es[ei as int] == (entries@[ei as int].key@, entries@[ei as int].value@));
                assert(s1.drop_first() =~= es.skip(ei + 1));
            }
            if bi < to {
                assert(b1[0] == b[bi - from]);
                assert(ops(batch@)[bi as int] == b[bi - from]);
                assert(b[bi - from] == op_view(batch@[bi as int]));
                assert(b1.drop_first() =~= b.skip(bi + 1 - from));
            }
        }
        let keep = if ei >= entries.len() {
            false
        } else if bi >= to {
            true
        } else {
            lex_less(&entries[ei].key, &batch[bi].0)
        };
        if keep {
            proof {
                lemma_merge_keep(s1, b1);
            }
            out.push(entries[ei].copy());
            proof {
                assert(pairs(out@) =~= had.push(es[ei as int]));
                assert(es.take(ei + 1) =~= es.take(ei as int).push(es[ei as int]));
                assert(pairs(out@) + apply_ops(es.skip(ei + 1), b1) =~= had + (seq![s1[0]]
                    + apply_ops(s1.drop_first(), b1)));
                let po = pairs(out@);
                assert forall|i: int| 0 <= i < po.len() implies (#[trigger] po[i]).0.len()
                    <= u16::MAX && po[i].1.len() <= u32::MAX by {
                    if i < had.len() {
                        assert(po[i] == had[i]);
                    } else {
                        assert(po[i] == es[ei as int]);
                    }
                }
            }
            ei += 1;
        } else {
            let here = ei < entries.len() && bytes_equal(&entries[ei].key, &batch[bi].0);
            proof {
                lemma_merge_op(s1, b1);
                if already_holds(es, b) {
                    lemma_rank_is(es, b[bi - from].0, ei as int);
                    assert(lookup(es, b[bi - from].0) == b[bi - from].1);
                }
            }
            match &batch[bi].1 {
                Some(value) => {
                    let same = here && bytes_equal(&entries[ei].value, value);
                    if !same {
                        changed = true;
                    }
                    out.push(Entry { key: copy_bytes(&batch[bi].0), value: copy_bytes(value) });
                    proof {
                        let x = (batch@[bi as int].0@, value@);
                        assert(pairs(out@) =~= had.push(x));
                        let rest = if here {
                            es.skip(ei + 1)
                        } else {
                            s1
                        };
                        assert(pairs(out@) + apply_ops(rest, b1.drop_first()) =~= had + (seq![x]
                            + apply_ops(rest, b1.drop_first())));
                        if same {
                            assert(es.take(ei + 1) =~= es.take(ei as int).push(es[ei as int]));
                        }
                        let po = pairs(out@);
                        assert forall|i: int| 0 <= i < po.len() implies (#[trigger] po[i]).0.len()
                            <= u16::MAX && po[i].1.len() <= u32::MAX by {
                            if i < had.len() {
                                assert(po[i] == had[i]);
                            }
                        }
                    }
                },
                None => {
                    if here {
                        changed = true;
                    }
                },
            }
            proof {
                if bi + 1 < to {
                    assert(lex_lt(b[bi - from].0, b[bi + 1 - from].0));
                }
            }
            if here {
                ei += 1;
            }
            bi += 1;
        }
    }
    proof {
        assert(es.skip(ei as int) =~= Seq::empty());
        assert(b.skip(bi - from) =~= Seq::empty());
        assert(pairs(out@) + Seq::<(Seq<u8>, Seq<u8>)>::empty() =~= pairs(out@));
        assert(es.take(ei as int) =~= es);
    }
    (out, changed)
}

// ---------------------------------------------------------------------------
// Patching
// ---------------------------------------------------------------------------

/// First position in `batch[lo..hi]` whose key is not below `sep`.
fn partition_point(batch: &[BatchOp], lo: usize, hi: usize, sep: &[u8]) -> (r: usize)
    requires
        lo <= hi <= batch@.len(),
        sorted(ops(batch@)),
    ensures
        lo <= r <= hi,
        forall|j: int| lo <= j < r ==> lex_lt((#[trigger] ops(batch@)[j]).0, sep@),
        forall|j: int| r <= j < hi ==> !lex_lt((#[trigger] ops(batch@)[j]).0, sep@),
{
    let ghost b = ops(batch@);
    let mut from: usize = lo;
    let mut to: usize = hi;
    while from < to
        invariant
            lo <= from <= to <= hi <= batch@.len(),
            b == ops(batch@),
            sorted(b),
            forall|j: int| lo <= j < from ==> lex_lt((#[trigger] b[j]).0, sep@),
            forall|j: int| to <= j < hi ==> !lex_lt((#[trigger] b[j]).0, sep@),
        decreases to - from,
    {
        let mid: usize = from + (to - from) / 2;
        assert(b[mid as int].0 == batch@[mid as int].0@);
        proof {
            lemma_lex_order();
        }
        if lex_less(&batch[mid].0, sep) {
            assert forall|j: int| lo <= j < mid + 1 implies lex_lt((#[trigger] b[j]).0, sep@) by {
                if from <= j < mid {
                    assert(lex_lt(b[j].0, b[mid as int].0));
                }
            }
            from = mid + 1;
        } else {
            assert forall|j: int| mid <= j < hi implies !lex_lt((#[trigger] b[j]).0, sep@) by {
                if mid < j < to {
                    assert(lex_lt(b[mid as int].0, b[j].0));
                }
            }
            to = mid;
        }
    }
    from
}

/// What a rewritten node is handed up as: separators and node ids, one more of these
/// than of those; without ids it is nothing.
type PatchOut = (Vec<Vec<u8>>, Vec<ChunkId>);

/// The separators can be encoded, and are one fewer than the ids.
pub open spec fn out_ok(o: PatchOut) -> bool {
    &&& seps_encodable(key_views(o.0@))
    &&& o.1@.len() == 0 ==> o.0@.len() == 0
    &&& o.1@.len() > 0 ==> o.1@.len() == o.0@.len() + 1
}

/// These are the separators and ids of the parts.
pub open spec fn stands_for(o: PatchOut, p: Parts, order: u16) -> bool {
    key_views(o.0@) == p.seps && id_views(o.1@) == tree_ids(p.trees, order)
}

/// The parts of `a`, and behind the separator those of `b`.
fn join_out(a: PatchOut, cut: Vec<u8>, b: PatchOut) -> (o: PatchOut)
    requires
        out_ok(a),
        out_ok(b),
        a.1@.len() > 0,
        b.1@.len() > 0,
        cut@.len() <= u16::MAX,
    ensures
        out_ok(o),
        o.1@.len() == a.1@.len() + b.1@.len(),
        forall|p: Parts, q: Parts, order: u16|
            stands_for(a, p, order) && stands_for(b, q, order) ==> #[trigger] stands_for(
                o,
                join(p, cut@, q),
                order,
            ),
{
    let ghost a0 = a;
    let ghost b0 = b;
    let ghost c = cut@;
    let (mut seps, mut ids) = a;
    let (mut more_seps, mut more_ids) = b;
    seps.push(cut);
    seps.append(&mut more_seps);
    ids.append(&mut more_ids);
    let o = (seps, ids);
    proof {
        let ka = key_views(a0.0@);
        let kb = key_views(b0.0@);
        assert(key_views(o.0@) =~= ka.push(c) + kb);
        assert(id_views(o.1@) =~= id_views(a0.1@) + id_views(b0.1@));
        let ko = key_views(o.0@);
        assert forall|i: int| 0 <= i < ko.len() implies (#[trigger] ko[i]).len() <= u16::MAX by {
            if i < ka.len() {
                assert(ko[i] == ka[i]);
            } else if i > ka.len() {
                assert(ko[i] == kb[i - ka.len() - 1]);
            }
        }
        assert forall|p: Parts, q: Parts, order: u16|
            stands_for(a0, p, order) && stands_for(b0, q, order) implies #[trigger] stands_for(
            o,
            join(p, c, q),
            order,
        ) by {
            assert(tree_ids(p.trees + q.trees, order) =~= tree_ids(p.trees, order) + tree_ids(
                q.trees,
                order,
            ));
        }
    }
    o
}

/// The payloads of parts side by side.
proof fn lemma_joined_payloads(a: Parts, cut: Seq<u8>, b: Parts, order: u16)
    ensures
        payloads_of(join(a, cut, b).trees, order) == payloads_of(a.trees, order) + payloads_of(
            b.trees,
            order,
        ),
{
    assert(payloads_of(join(a, cut, b).trees, order) =~= payloads_of(a.trees, order) + payloads_of(
        b.trees,
        order,
    ));
}

/// One node by itself.
fn single(id: ChunkId) -> (o: PatchOut)
    ensures
        out_ok(o),
        o.1@.len() == 1,
        o.1@[0] == id,
        forall|t: Tree, order: u16|
            id@ == tree_id(t, order) ==> #[trigger] stands_for(o, one(t), order),
{
    let mut ids: Vec<ChunkId> = Vec::new();
    ids.push(id);
    let o: PatchOut = (Vec::new(), ids);
    proof {
        assert forall|t: Tree, order: u16| id@ == tree_id(t, order) implies #[trigger] stands_for(
            o,
            one(t),
            order,
        ) by {
            assert(key_views(o.0@) =~= Seq::empty());
            assert(id_views(o.1@) =~= tree_ids(one(t).trees, order));
        }
    }
    o
}

/// Write leaves of at most `limit` entries.
fn put_leaf_halves<P: ObjectProvider>(
    provider: &mut P,
    entries: Vec<Entry>,
    order: u16,
    limit: usize,
) -> (o: PatchOut)
    requires
        leaf_encodable(pairs(entries@)),
        limit >= 1,
    ensures
        out_ok(o),
        o.1@.len() > 0,
        stands_for(o, leaf_halves(pairs(entries@), limit as nat), order),
        added(
            old(provider),
            final(provider),
            payloads_of(leaf_halves(pairs(entries@), limit as nat).trees, order),
        ),
    decreases entries@.len(), 1nat,
{
    let ghost es = pairs(entries@);
    if entries.len() <= limit {
        let id = put_leaf(provider, entries, order);
        let ghost t = Tree::Leaf { entries: es };
        assert(payloads_of(one(t).trees, order) =~= seq![tree_bytes(t, order)]);
        let o = single(id);
        assert(stands_for(o, one(t), order));
        return o;
    }
    put_two_leaves(provider, entries, order, limit)
}

/// Write a leaf as two halves, each of which is halved further where it must be.
fn put_two_leaves<P: ObjectProvider>(
    provider: &mut P,
    entries: Vec<Entry>,
    order: u16,
    limit: usize,
) -> (o: PatchOut)
    requires
        leaf_encodable(pairs(entries@)),
        limit >= 1,
        entries@.len() >= 2,
    ensures
        out_ok(o),
        o.1@.len() > 0,
        ({
            let es = pairs(entries@);
            let mid = es.len() as int / 2;
            let p = join(
                leaf_halves(es.take(mid), limit as nat),
                es[mid].0,
                leaf_halves(es.skip(mid), limit as nat),
            );
            &&& stands_for(o, p, order)
            &&& added(old(provider), final(provider), payloads_of(p.trees, order))
        }),
    decreases entries@.len(), 0nat,
{
    let ghost es = pairs(entries@);
    let ghost all = entries@;
    let mid: usize = entries.len() / 2;
    let mut left = entries;
    let right = left.split_off(mid);
    proof {
        assert(pairs(left@) =~= es.take(mid as int));
        assert(pairs(right@) =~= es.skip(mid as int));
        let a = pairs(left@);
        let b = pairs(right@);
        assert forall|i: int| 0 <= i < a.len() implies (#[trigger] a[i]).0.len() <= u16::MAX
            && a[i].1.len() <= u32::MAX by {
            assert(a[i] == es[i]);
        }
        assert forall|i: int| 0 <= i < b.len() implies (#[trigger] b[i]).0.len() <= u16::MAX
            && b[i].1.len() <= u32::MAX by {
            assert(b[i] == es[mid + i]);
        }
        assert(right@[0] == all[mid as int]);
        assert(es[mid as int] == (all[mid as int].key@, all[mid as int].value@));
    }
    let cut = copy_bytes(&right[0].key);
    let ghost p = leaf_halves(es.take(mid as int), limit as nat);
    let ghost q = leaf_halves(es.skip(mid as int), limit as nat);
    let a = put_leaf_halves(provider, left, order, limit);
    let ghost mid_provider = *provider;
    let b = put_leaf_halves(provider, right, order, limit);
    let ghost c = cut@;
    let o = join_out(a, cut, b);
    proof {
        assert(stands_for(o, join(p, c, q), order));
        lemma_joined_payloads(p, c, q, order);
        lemma_added_then(
            old(provider),
            &mid_provider,
            provider,
            payloads_of(p.trees, order),
            payloads_of(q.trees, order),
        );
    }
    o
}

/// Write a leaf, split where it is over-full.
fn put_split_leaf<P: ObjectProvider>(
    provider: &mut P,
    entries: Vec<Entry>,
    order: u16,
    limit: usize,
) -> (o: PatchOut)
    requires
        leaf_encodable(pairs(entries@)),
        limit >= 1,
        order >= 1,
    ensures
        out_ok(o),
        o.1@.len() > 0,
        stands_for(o, split_leaf(pairs(entries@), order as nat, limit as nat), order),
        added(
            old(provider),
            final(provider),
            payloads_of(split_leaf(pairs(entries@), order as nat, limit as nat).trees, order),
        ),
{
    let ghost es = pairs(entries@);
    if entries.len() <= order as usize {
        let id = put_leaf(provider, entries, order);
        let ghost t = Tree::Leaf { entries: es };
        assert(payloads_of(one(t).trees, order) =~= seq![tree_bytes(t, order)]);
        let o = single(id);
        assert(stands_for(o, one(t), order));
        return o;
    }
    put_two_leaves(provider, entries, order, limit)
}

/// A run of a run is a run.
proof fn lemma_run_run(p: Parts, from: int, to: int, a: int, b: int)
    requires
        p.trees.len() == p.seps.len() + 1,
        0 <= from <= to < p.trees.len(),
        0 <= a <= b <= to - from,
    ensures
        run(run(p, from, to), a, b) == run(p, from + a, from + b),
{
    let x = run(run(p, from, to), a, b);
    let y = run(p, from + a, from + b);
    assert(x.seps =~= y.seps);
    assert(x.trees =~= y.trees);
}

/// Write internal nodes of at most `limit` separators over `kids[from..=to]`.
fn put_branch_halves<P: ObjectProvider>(
    provider: &mut P,
    seps: &Vec<Vec<u8>>,
    kids: &Vec<ChunkId>,
    from: usize,
    to: usize,
    order: u16,
    limit: usize,
    Ghost(p): Ghost<Parts>,
) -> (o: PatchOut)
    requires
        kids@.len() == seps@.len() + 1,
        from <= to < kids@.len(),
        seps_encodable(key_views(seps@)),
        limit >= 1,
    ensures
        grown(old(provider), final(provider)),
        out_ok(o),
        o.1@.len() > 0,
        key_views(seps@) == p.seps && id_views(kids@) == tree_ids(p.trees, order) ==> {
            let q = branch_halves(run(p, from as int, to as int), limit as nat);
            &&& stands_for(o, q, order)
            &&& added(old(provider), final(provider), payloads_of(q.trees, order))
        },
    decreases to - from, 1nat,
{
    if to - from <= limit {
        let id = put_branch(provider, seps, kids, from, to, order, Ghost(p.trees));
        let o = single(id);
        proof {
            let t = over(run(p, from as int, to as int));
            if key_views(seps@) == p.seps && id_views(kids@) == tree_ids(p.trees, order) {
                assert(payloads_of(one(t).trees, order) =~= seq![tree_bytes(t, order)]);
                assert(stands_for(o, one(t), order));
            }
        }
        return o;
    }
    put_two_branches(provider, seps, kids, from, to, order, limit, Ghost(p))
}

/// Write an internal node as two halves, each of which is halved further where it must
/// be.
fn put_two_branches<P: ObjectProvider>(
    provider: &mut P,
    seps: &Vec<Vec<u8>>,
    kids: &Vec<ChunkId>,
    from: usize,
    to: usize,
    order: u16,
    limit: usize,
    Ghost(p): Ghost<Parts>,
) -> (o: PatchOut)
    requires
        kids@.len() == seps@.len() + 1,
        from < to < kids@.len(),
        seps_encodable(key_views(seps@)),
        limit >= 1,
    ensures
        grown(old(provider), final(provider)),
        out_ok(o),
        o.1@.len() > 0,
        key_views(seps@) == p.seps && id_views(kids@) == tree_ids(p.trees, order) ==> {
            let r = run(p, from as int, to as int);
            let n = r.seps.len() as int;
            let mid = n / 2;
            let q = join(
                branch_halves(run(r, 0, mid), limit as nat),
                r.seps[mid],
                branch_halves(run(r, mid + 1, n), limit as nat),
            );
            &&& stands_for(o, q, order)
            &&& added(old(provider), final(provider), payloads_of(q.trees, order))
        },
    decreases to - from, 0nat,
{
    let mid: usize = from + (to - from) / 2;
    let cut = copy_bytes(&seps[mid]);
    let ghost c = cut@;
    assert(key_views(seps@)[mid as int] == c);
    let a = put_branch_halves(provider, seps, kids, from, mid, order, limit, Ghost(p));
    let ghost mid_provider = *provider;
    let b = put_branch_halves(provider, seps, kids, mid + 1, to, order, limit, Ghost(p));
    let o = join_out(a, cut, b);
    proof {
        if key_views(seps@) == p.seps && id_views(kids@) == tree_ids(p.trees, order) {
            assert(tree_ids(p.trees, order).len() == p.trees.len());
            let r = run(p, from as int, to as int);
            let n = to - from;
            lemma_run_run(p, from as int, to as int, 0, mid - from);
            lemma_run_run(p, from as int, to as int, mid - from + 1, n);
            let x = branch_halves(run(p, from as int, mid as int), limit as nat);
            let y = branch_halves(run(p, mid + 1, to as int), limit as nat);
            assert(r.seps[mid - from] == c);
            assert(stands_for(o, join(x, c, y), order));
            lemma_joined_payloads(x, c, y, order);
            lemma_added_then(
                old(provider),
                &mid_provider,
                provider,
                payloads_of(x.trees, order),
                payloads_of(y.trees, order),
            );
        }
    }
    o
}

/// Write an internal node, split where it is over-full.
fn put_split_branch<P: ObjectProvider>(
    provider: &mut P,
    seps: &Vec<Vec<u8>>,
    kids: &Vec<ChunkId>,
    order: u16,
    limit: usize,
    Ghost(p): Ghost<Parts>,
) -> (o: PatchOut)
    requires
        kids@.len() == seps@.len() + 1,
        seps_encodable(key_views(seps@)),
        limit >= 1,
    ensures
        grown(old(provider), final(provider)),
        out_ok(o),
        o.1@.len() > 0,
        key_views(seps@) == p.seps && id_views(kids@) == tree_ids(p.trees, order) ==> {
            let q = split_branch(p, order as nat, limit as nat);
            &&& stands_for(o, q, order)
            &&& added(old(provider), final(provider), payloads_of(q.trees, order))
        },
{
    let n: usize = seps.len();
    proof {
        if key_views(seps@) == p.seps && id_views(kids@) == tree_ids(p.trees, order) {
            assert(tree_ids(p.trees, order).len() == p.trees.len());
            let r = run(p, 0, n as int);
            assert(r.seps =~= p.seps);
            assert(r.trees =~= p.trees);
        }
    }
    if n <= order as usize {
        let id = put_branch(provider, seps, kids, 0, n, order, Ghost(p.trees));
        let o = single(id);
        proof {
            let t = over(run(p, 0, n as int));
            if key_views(seps@) == p.seps && id_views(kids@) == tree_ids(p.trees, order) {
                assert(payloads_of(one(t).trees, order) =~= seq![tree_bytes(t, order)]);
                assert(stands_for(o, one(t), order));
            }
        }
        return o;
    }
    put_two_branches(provider, seps, kids, 0, n, order, limit, Ghost(p))
}

/// The most entries of a node that a reader accepts.
fn most_entries(max_fanout: u32) -> (r: usize)
    ensures
        r == node_limit(max_fanout),
        1 <= r <= u16::MAX,
{
    if max_fanout == 0 {
        1
    } else if max_fanout > 0xffff {
        0xffff
    } else {
        max_fanout as usize
    }
}

/// A tree that is given nothing stays.
proof fn lemma_untouched(t: Tree, b: Seq<(Seq<u8>, Option<Seq<u8>>)>, order: u16, limit: nat)
    requires
        b.len() == 0,
    ensures
        patched(t, b, order as nat, limit) == one(t),
        patch_puts(t, b, order, limit) == Seq::<Seq<u8>>::empty(),
{
}

/// What the parts of a child say of whether it was changed.
proof fn lemma_same_child(
    payloads: Set<Seq<u8>>,
    kid: Tree,
    q: Parts,
    order: u16,
    max_fanout: u32,
    o: PatchOut,
    current: Seq<u8>,
)
    requires
        clash_free(payloads),
        stored(payloads, kid, order),
        sized(kid, max_fanout),
        parts_stored(payloads, q, order),
        q.trees.len() == 1 ==> sized(q.trees[0], max_fanout) && q.seps.len() == 0,
        stands_for(o, q, order),
        current == tree_id(kid, order),
    ensures
        (q == one(kid)) == (o.1@.len() == 1 && o.1@[0]@ == current),
{
    assert(tree_ids(q.trees, order).len() == q.trees.len());
    if o.1@.len() == 1 && o.1@[0]@ == current {
        assert(id_views(o.1@)[0] == o.1@[0]@);
        assert(tree_ids(q.trees, order)[0] == tree_id(q.trees[0], order));
        lemma_sized_coded(kid, max_fanout);
        lemma_sized_coded(q.trees[0], max_fanout);
        lemma_tree_unique(payloads, q.trees[0], kid, order);
        assert(q.trees =~= seq![kid]);
        assert(q.seps =~= Seq::empty());
    }
    if q == one(kid) {
        assert(id_views(o.1@)[0] == o.1@[0]@);
        assert(tree_ids(q.trees, order)[0] == tree_id(kid, order));
    }
}

/// The parts behind those collected so far.
fn collect(out: PatchOut, cut: &Vec<u8>, made: PatchOut) -> (o: PatchOut)
    requires
        out_ok(out),
        out_ok(made),
        cut@.len() <= u16::MAX,
    ensures
        out_ok(o),
        o.1@.len() == out.1@.len() + made.1@.len(),
        forall|p: Parts, q: Parts, order: u16|
            stands_for(out, p, order) && stands_for(made, q, order) ==> #[trigger] stands_for(
                o,
                append(p, cut@, q),
                order,
            ),
{
    let ghost a = out;
    let ghost b = made;
    proof {
        assert forall|p: Parts, order: u16| #[trigger] stands_for(a, p, order) implies p.trees.len()
            == a.1@.len() by {
            assert(tree_ids(p.trees, order).len() == p.trees.len());
            assert(id_views(a.1@).len() == a.1@.len());
        }
        assert forall|p: Parts, order: u16| #[trigger] stands_for(b, p, order) implies p.trees.len()
            == b.1@.len() by {
            assert(tree_ids(p.trees, order).len() == p.trees.len());
            assert(id_views(b.1@).len() == b.1@.len());
        }
    }
    let o = if made.1.len() == 0 {
        out
    } else if out.1.len() == 0 {
        made
    } else {
        join_out(out, copy_bytes(cut), made)
    };
    proof {
        assert forall|p: Parts, q: Parts, order: u16|
            stands_for(a, p, order) && stands_for(b, q, order) implies #[trigger] stands_for(
            o,
            append(p, cut@, q),
            order,
        ) by {
            if q.trees.len() > 0 && p.trees.len() > 0 {
                assert(stands_for(o, join(p, cut@, q), order));
            }
        }
    }
    o
}

/// The batch from `from` to `to` on the node: what it becomes, node by node, and which
/// nodes are written. Children that the batch leaves alone are not even fetched.
#[verifier::rlimit(100)]
#[verifier::spinoff_prover]
fn patch_rec<P: ObjectProvider>(
    node_id: ChunkId,
    batch: &[BatchOp],
    from: usize,
    to: usize,
    depth: u32,
    order: u16,
    max_fanout: u32,
    provider: &mut P,
    Ghost(t): Ghost<Tree>,
    Ghost(lo): Ghost<Option<Seq<u8>>>,
    Ghost(hi): Ghost<Option<Seq<u8>>>,
) -> (out: Result<PatchOut, BTreeError>)
    requires
        depth <= 129,
        from <= to <= batch@.len(),
        sorted(ops(batch@)),
        ops_encodable(ops(batch@)),
        1 <= order,
    ensures
        grown(old(provider), final(provider)),
        out matches Ok(o) ==> out_ok(o),
        order <= max_fanout && old(provider).faithful() && clash_free(final(provider).payloads())
            && holds(old(provider).payloads(), node_id@, t, order, max_fanout, lo, hi) && (forall|
            j: int,
        |
            from <= j < to ==> covers(lo, hi, (#[trigger] ops(batch@)[j]).0)) ==> match out {
            Ok(o) => {
                let b = ops(batch@).subrange(from as int, to as int);
                let limit = node_limit(max_fanout);
                &&& stands_for(o, patched(t, b, order as nat, limit), order)
                &&& added(old(provider), final(provider), patch_puts(t, b, order, limit))
            },
            Err(_) => old(provider).may_fail() || height(t) + depth > max_height(),
        },
    decreases 129 - depth,
{
    let ghost p0 = provider.payloads();
    let ghost all = ops(batch@);
    let ghost b = all.subrange(from as int, to as int);
    let ghost fit = order <= max_fanout && provider.faithful() && holds(
        p0,
        node_id@,
        t,
        order,
        max_fanout,
        lo,
        hi,
    ) && (forall|j: int|
        from <= j < to ==> covers(lo, hi, (#[trigger] all[j]).0));
    if depth > 128 {
        return Err(BTreeError::Invariant("tree depth exceeded".to_string()));
    }
    let limit: usize = most_entries(max_fanout);
    proof {
        if fit {
            lemma_ordered_keyed(t, lo, hi);
            lemma_ordered_flat(t, lo, hi);
            lemma_sized_coded(t, max_fanout);
        }
        lemma_added_none(provider);
        assert(sorted(b)) by {
            assert forall|i: int, j: int| #![trigger b[i], b[j]]
                0 <= i < j < b.len() implies lex_lt(b[i].0, b[j].0) by {
                assert(b[i] == all[from + i] && b[j] == all[from + j]);
            }
        }
        assert(ops_encodable(b)) by {
            assert forall|i: int| 0 <= i < b.len() implies ((#[trigger] b[i]).1 matches Some(v)
                ==> b[i].0.len() <= u16::MAX && v.len() <= u32::MAX) by {
                assert(b[i] == all[from + i]);
            }
        }
    }
    if from == to {
        proof {
            lemma_untouched(t, b, order, limit as nat);
        }
        let o = single(node_id);
        assert(node_id@ == tree_id(t, order) ==> stands_for(o, one(t), order));
        return Ok(o);
    }
    let node = match fetch(node_id, order, max_fanout, provider, Ghost(t)) {
        Ok(n) => n,
        Err(e) => return Err(e),
    };
    match node {
        Node::Leaf { entries } => {
            let ghost es = pairs(entries@);
            let (merged, changed) = merge_leaf(&entries, batch, from, to);
            if !changed {
                let o = single(node_id);
                proof {
                    assert(node_id@ == tree_id(t, order) ==> stands_for(o, one(t), order));
                    lemma_applied_holds(es, b);
                }
                return Ok(o);
            }
            if merged.len() == 0 {
                let o: PatchOut = (Vec::new(), Vec::new());
                proof {
                    assert(key_views(o.0@) =~= Seq::empty());
                    assert(id_views(o.1@) =~= tree_ids(no_parts().trees, order));
                    assert(payloads_of(no_parts().trees, order) =~= Seq::empty());
                }
                return Ok(o);
            }
            Ok(put_split_leaf(provider, merged, order, limit))
        },
        Node::Internal { first_child, entries } => {
            let (seps, kids) = branch_of(first_child, &entries);
            let ghost tk = t->kids;
            let ghost ts = t->seps;
            let mut out: PatchOut = (Vec::new(), Vec::new());
            let none: Vec<u8> = Vec::new();
            let mut changed = false;
            let mut i: usize = 0;
            let mut at: usize = from;
            proof {
                assert(key_views(out.0@) =~= Seq::empty());
                assert(id_views(out.1@) =~= tree_ids(no_parts().trees, order));
                if fit && clash_free(p0) {
                    lemma_branch(key_views(seps@), id_views(kids@), t, order);
                    assert forall|j: int| 0 <= j < b.len() implies covers(
                        lo,
                        hi,
                        (#[trigger] b[j]).0,
                    ) by {
                        assert(b[j] == all[from + j]);
                    }
                }
            }
            while i < kids.len()
                invariant
                    i <= kids@.len(),
                    kids@.len() == seps@.len() + 1,
                    from < to,
                    from <= at <= to <= batch@.len(),
                    depth <= 128,
                    1 <= order,
                    limit == node_limit(max_fanout),
                    1 <= limit <= u16::MAX,
                    p0 == old(provider).payloads(),
                    grown(old(provider), provider),
                    all == ops(batch@),
                    sorted(all),
                    ops_encodable(all),
                    b == all.subrange(from as int, to as int),
                    sorted(b),
                    ops_encodable(b),
                    seps_encodable(key_views(seps@)),
                    out_ok(out),
                    none@.len() == 0,
                    fit == (order <= max_fanout && old(provider).faithful() && holds(
                        p0,
                        node_id@,
                        t,
                        order,
                        max_fanout,
                        lo,
                        hi,
                    ) && (forall|j: int|
                        from <= j < to ==> covers(lo, hi, (#[trigger] all[j]).0))),
                    fit && clash_free(p0) ==> forall|j: int|
                        0 <= j < b.len() ==> covers(lo, hi, (#[trigger] b[j]).0),
                    ts == t->seps,
                    tk == t->kids,
                    fit && clash_free(p0) ==> t is Internal && key_views(seps@) == ts && id_views(
                        kids@,
                    ) == tree_ids(tk, order),
                    fit && clash_free(provider.payloads()) ==> {
                        let (p, c) = patched_kids(ts, tk, i as nat, b, order as nat, limit as nat);
                        &&& stands_for(out, p, order)
                        &&& changed == c
                        &&& at - from == part_start(ts, b, i as int)
                        &&& added(
                            old(provider),
                            provider,
                            kids_puts(ts, tk, i as nat, b, order, limit as nat),
                        )
                    },
                decreases kids@.len() - i,
            {
                let ghost p1 = provider.payloads();
                let ghost before = *provider;
                let next: usize = if i < seps.len() {
                    partition_point(batch, at, to, &seps[i])
                } else {
                    to
                };
                let ghost part = part_of(ts, b, i as int);
                let ghost klo = kid_lo(ts, lo, i as int);
                let ghost khi = kid_hi(ts, hi, i as int);
                let ghost kt = tk[i as int];
                let current = kids[i];
                proof {
                    if fit && clash_free(p1) {
                        lemma_clash_free_subset(p0, p1);
                        lemma_kid_holds(p0, t, order, max_fanout, lo, hi, i as int);
                        assert(id_views(kids@)[i as int] == current@);
                        assert(tree_ids(tk, order)[i as int] == tree_id(kt, order));
                        lemma_next_part(t, b, lo, hi, i as int, at - from, next - from, all, from as int);
                        lemma_part(t, b, lo, hi, i as int);
                        assert(part =~= all.subrange(at as int, next as int));
                        assert forall|j: int| at <= j < next implies covers(
                            klo,
                            khi,
                            (#[trigger] all[j]).0,
                        ) by {
                            assert(b[j - from] == all[j]);
                        }
                        lemma_stored_mono(p0, p1, kt, order);
                    }
                }
                let made = if at == next {
                    let o = single(current);
                    proof {
                        lemma_added_none(provider);
                        if fit && clash_free(p1) {
                            lemma_untouched(kt, part, order, limit as nat);
                            assert(stands_for(o, one(kt), order));
                        }
                    }
                    o
                } else {
                    match patch_rec(
                        current,
                        batch,
                        at,
                        next,
                        depth + 1,
                        order,
                        max_fanout,
                        provider,
                        Ghost(kt),
                        Ghost(klo),
                        Ghost(khi),
                    ) {
                        Ok(v) => v,
                        Err(e) => {
                            proof {
                                if clash_free(provider.payloads()) {
                                    lemma_clash_free_subset(p1, provider.payloads());
                                }
                            }
                            return Err(e);
                        },
                    }
                };
                let ghost p2 = provider.payloads();
                let ghost q = patched(kt, part, order as nat, limit as nat);
                let same = made.1.len() == 1 && made.1[0] == current;
                proof {
                    if fit && clash_free(p2) {
                        lemma_clash_free_subset(p1, p2);
                        lemma_clash_free_subset(p0, p2);
                        lemma_part(t, b, lo, hi, i as int);
                        lemma_part_encodable(ts, b, i as int);
                        lemma_stored_mono(p1, p2, kt, order);
                        lemma_patch_stored(
                            p2,
                            kt,
                            part,
                            order,
                            limit as nat,
                            max_fanout,
                            klo,
                            khi,
                        );
                        lemma_patched(
                            kt,
                            part,
                            order as nat,
                            limit as nat,
                            klo,
                            khi,
                            max_fanout,
                        );
                        lemma_same_child(p2, kt, q, order, max_fanout, made, current@);
                        lemma_added_then(
                            old(provider),
                            &before,
                            provider,
                            kids_puts(ts, tk, i as nat, b, order, limit as nat),
                            patch_puts(kt, part, order, limit as nat),
                        );
                    }
                }
                let cut: &Vec<u8> = if i > 0 {
                    &seps[i - 1]
                } else {
                    &none
                };
                let ghost had = out;
                assert(i > 0 ==> cut@ == key_views(seps@)[i - 1] && key_views(seps@)[i - 1].len() <= u16::MAX);
                out = collect(out, cut, made);
                proof {
                    if fit && clash_free(p2) {
                        let (p, c) = patched_kids(ts, tk, i as nat, b, order as nat, limit as nat);
                        assert(stands_for(had, p, order));
                        assert(stands_for(made, q, order));
                        assert(stands_for(out, append(p, cut@, q), order));
                        if i == 0 {
                            assert(append(p, cut@, q) == append(p, ts[i - 1], q));
                        }
                        assert(patched_kids(ts, tk, (i + 1) as nat, b, order as nat, limit as nat)
                            == (append(p, ts[i - 1], q), c || q != one(kt)));
                    }
                }
                if !same {
                    changed = true;
                }
                at = next;
                i += 1;
            }
            let ghost p3 = provider.payloads();
            let ghost (pk, ck) = patched_kids(
                ts,
                tk,
                tk.len(),
                b,
                order as nat,
                limit as nat,
            );
            let ghost below = kids_puts(ts, tk, tk.len(), b, order, limit as nat);
            proof {
                if fit && clash_free(p3) {
                    lemma_clash_free_subset(p0, p3);
                    assert(Tree::Internal { seps: ts, kids: tk } == t);
                    assert(id_views(out.1@).len() == out.1@.len());
                    assert(tree_ids(pk.trees, order).len() == pk.trees.len());
                }
            }
            if !changed {
                let o = single(node_id);
                assert(node_id@ == tree_id(t, order) ==> stands_for(o, one(t), order));
                return Ok(o);
            }
            if out.1.len() < 2 {
                return Ok(out);
            }
            let ghost before = *provider;
            let o = put_split_branch(provider, &out.0, &out.1, order, limit, Ghost(pk));
            proof {
                if fit && clash_free(provider.payloads()) {
                    lemma_clash_free_subset(p3, provider.payloads());
                    lemma_added_then(
                        old(provider),
                        &before,
                        provider,
                        below,
                        payloads_of(split_branch(pk, order as nat, limit as nat).trees, order),
                    );
                }
            }
            Ok(o)
        },
    }
}

/// Group parts under internal nodes of `order + 1` children.
#[verifier::rlimit(60)]
#[verifier::spinoff_prover]
fn raise_level<P: ObjectProvider>(
    parts: &PatchOut,
    order: u16,
    provider: &mut P,
    Ghost(p): Ghost<Parts>,
    Ghost(max_fanout): Ghost<u32>,
    Ghost(h): Ghost<nat>,
) -> (r: (PatchOut, Ghost<Parts>))
    requires
        1 <= order,
        out_ok(*parts),
        parts.1@.len() > 1,
    ensures
        grown(old(provider), final(provider)),
        out_ok(r.0),
        0 < r.0.1@.len() < parts.1@.len(),
        2 * r.0.1@.len() <= parts.1@.len() + 1,
        order <= max_fanout && stands_for(*parts, p, order) && parts_ok(p, None, None, max_fanout, h)
            && parts_stored(old(provider).payloads(), p, order) ==> {
            &&& stands_for(r.0, r.1@, order)
            &&& parts_ok(r.1@, None, None, max_fanout, h + 1)
            &&& parts_stored(final(provider).payloads(), r.1@, order)
            &&& listed(r.1@) == listed(p)
        },
{
    let seps = &parts.0;
    let kids = &parts.1;
    let n: usize = kids.len();
    let ghost good = order <= max_fanout && stands_for(*parts, p, order) && parts_ok(
        p,
        None,
        None,
        max_fanout,
        h,
    ) && parts_stored(provider.payloads(), p, order);
    let ghost p0 = provider.payloads();
    let ghost fs = flats(p.trees);
    let mut out: PatchOut = (Vec::new(), Vec::new());
    let none: Vec<u8> = Vec::new();
    let ghost mut made: Parts = no_parts();
    let mut i: usize = 0;
    proof {
        assert(key_views(out.0@) =~= Seq::empty());
        assert(id_views(out.1@) =~= tree_ids(no_parts().trees, order));
        assert(flats(made.trees) =~= Seq::empty());
        assert(fs.take(0) =~= Seq::empty());
        if good {
            assert(tree_ids(p.trees, order).len() == p.trees.len());
            assert(id_views(kids@).len() == n);
        }
    }
    while i < n
        invariant
            i <= n,
            n == kids@.len(),
            n > 1,
            none@.len() == 0,
            seps@ == parts.0@,
            kids@ == parts.1@,
            out_ok(*parts),
            1 <= order,
            p0 == old(provider).payloads(),
            grown(old(provider), provider),
            out_ok(out),
            2 * out.1@.len() <= i + 1,
            i < n ==> 2 * out.1@.len() <= i,
            i > 0 ==> out.1@.len() > 0,
            fs == flats(p.trees),
            good == (order <= max_fanout && stands_for(*parts, p, order) && parts_ok(
                p,
                None,
                None,
                max_fanout,
                h,
            ) && parts_stored(p0, p, order)),
            good ==> p.trees.len() == n,
            good ==> stands_for(out, made, order),
            good ==> parts_stored(provider.payloads(), made, order),
            good ==> listed(made) == concat(fs.take(i as int)),
            good ==> (i == 0) == (made.trees.len() == 0),
            good && i == 0 ==> made == no_parts(),
            good && i > 0 ==> parts_ok(
                made,
                None,
                kid_hi(p.seps, None, i - 1),
                max_fanout,
                h + 1,
            ),
        decreases n - i,
    {
        let to: usize = if n - 1 - i < order as usize {
            n - 1
        } else {
            i + order as usize
        };
        let ghost p1 = provider.payloads();
        let id = put_branch(provider, seps, kids, i, to, order, Ghost(p.trees));
        let node = single(id);
        let cut: &Vec<u8> = if i > 0 {
            &seps[i - 1]
        } else {
            &none
        };
        let ghost had = out;
        let ghost was = made;
        let ghost w = run(p, i as int, to as int);
        assert(i > 0 ==> cut@ == key_views(seps@)[i - 1] && key_views(seps@)[i - 1].len() <= u16::MAX);
        out = collect(out, cut, node);
        proof {
            if good {
                let p2 = provider.payloads();
                let t = over(w);
                let q = one(t);
                lemma_run(p, None, None, max_fanout, h, i as int, to as int);
                lemma_over(w, kid_lo(p.seps, None, i as int), kid_hi(p.seps, None, to as int), max_fanout, h);
                assert(matched(p1, id_views(kids@), p.trees, order)) by {
                    assert forall|j: int| 0 <= j < p.trees.len() implies id_views(kids@)[j]
                        == tree_id(#[trigger] p.trees[j], order) && stored(p1, p.trees[j], order)
                        && coded(p.trees[j]) by {
                        assert(tree_ids(p.trees, order)[j] == tree_id(p.trees[j], order));
                        lemma_stored_mono(p0, p1, p.trees[j], order);
                        lemma_sized_coded(p.trees[j], max_fanout);
                    }
                }
                assert(id@ == tree_id(t, order));
                assert(stands_for(node, q, order));
                made = append(was, cut@, q);
                assert(stands_for(out, append(was, cut@, q), order));
                if i > 0 {
                    assert(inside(None, None, p.seps[i - 1]));
                    if to < p.seps.len() {
                        assert(lex_lt(p.seps[i - 1], p.seps[to as int]));
                    }
                    lemma_joined(
                        was,
                        cut@,
                        q,
                        None,
                        kid_hi(p.seps, None, to as int),
                        max_fanout,
                        h + 1,
                    );
                }
                assert(listed(made) =~= listed(was) + listed(w)) by {
                    if i == 0 {
                        assert(listed(was) =~= Seq::empty());
                    }
                }
                assert(flats(w.trees) =~= fs.subrange(i as int, to + 1));
                assert(fs.take(to + 1) =~= fs.take(i as int) + fs.subrange(i as int, to + 1));
                lemma_concat_split(fs.take(i as int), fs.subrange(i as int, to + 1));
                assert forall|j: int| 0 <= j < made.trees.len() implies stored(
                    p2,
                    #[trigger] made.trees[j],
                    order,
                ) by {
                    if j < was.trees.len() {
                        assert(made.trees[j] == was.trees[j]);
                        lemma_stored_mono(p1, p2, was.trees[j], order);
                    } else {
                        assert(made.trees[j] == t);
                    }
                }
            }
        }
        i = to + 1;
    }
    proof {
        if good {
            assert(fs.take(n as int) =~= fs);
        }
    }
    (out, Ghost(made))
}

/// Put parts under one root, level by level.
fn raise<P: ObjectProvider>(
    parts: PatchOut,
    order: u16,
    provider: &mut P,
    Ghost(p): Ghost<Parts>,
    Ghost(max_fanout): Ghost<u32>,
    Ghost(h): Ghost<nat>,
) -> (r: (ChunkId, Ghost<Tree>))
    requires
        1 <= order,
        out_ok(parts),
        parts.1@.len() > 0,
    ensures
        grown(old(provider), final(provider)),
        parts.1@.len() == 1 ==> r.0@ == parts.1@[0]@ && final(provider).payloads() == old(
            provider,
        ).payloads(),
        order <= max_fanout && stands_for(parts, p, order) && parts_ok(p, None, None, max_fanout, h)
            && parts_stored(old(provider).payloads(), p, order) ==> {
            &&& holds(final(provider).payloads(), r.0@, r.1@, order, max_fanout, None, None)
            &&& height(r.1@) <= h + 64
            &&& flat(r.1@) == listed(p)
        },
{
    let ghost good = order <= max_fanout && stands_for(parts, p, order) && parts_ok(
        p,
        None,
        None,
        max_fanout,
        h,
    ) && parts_stored(provider.payloads(), p, order);
    let count: usize = parts.1.len();
    let mut now = parts;
    let ghost mut q: Parts = p;
    let ghost mut b: nat = 64;
    proof {
        lemma_pow2_64();
        assert(count <= pow2(64));
    }
    while now.1.len() > 1
        invariant
            1 <= order,
            out_ok(now),
            now.1@.len() > 0,
            b <= 64,
            now.1@.len() <= pow2(b),
            grown(old(provider), provider),
            parts.1@.len() == 1 ==> now == parts && provider.payloads() == old(provider).payloads(),
            good ==> order <= max_fanout && stands_for(now, q, order) && parts_ok(
                q,
                None,
                None,
                max_fanout,
                (h + 64 - b) as nat,
            ) && parts_stored(provider.payloads(), q, order) && listed(q) == listed(p),
        decreases now.1@.len(),
    {
        let (next, made) = raise_level(
            &now,
            order,
            provider,
            Ghost(q),
            Ghost(max_fanout),
            Ghost((h + 64 - b) as nat),
        );
        proof {
            assert(b >= 1);
            b = (b - 1) as nat;
            q = made@;
        }
        now = next;
    }
    let id = now.1[0];
    proof {
        if good {
            assert(tree_ids(q.trees, order).len() == q.trees.len());
            assert(id_views(now.1@)[0] == id@);
            assert(tree_ids(q.trees, order)[0] == tree_id(q.trees[0], order));
            assert(ordered(q.trees[0], kid_lo(q.seps, None, 0), kid_hi(q.seps, None, 0)));
            assert(flats(q.trees) =~= seq![flat(q.trees[0])]);
            lemma_concat_one(flat(q.trees[0]));
        }
    }
    (id, Ghost(q.trees[0]))
}

/// Bulk patch: apply a sorted batch of operations (`Some` binds, `None`
/// removes) in one pass, rewriting each affected leaf once and each affected
/// ancestor once. Unchanged subtrees keep their content ids. Returns the new
/// root. However large the batch, the new tree can be read with the same order and
/// fanout limit.
///
/// The batch must be sorted by key with no duplicates; a violation is an
/// invariant error.
#[verifier::rlimit(40)]
pub fn apply_sorted_batch<P: ObjectProvider>(
    root: ChunkId,
    batch: &[BatchOp],
    order: u16,
    max_fanout: u32,
    provider: &mut P,
) -> (r: Result<ChunkId, BTreeError>)
    requires
        sorted(ops(batch@)) ==> ops_encodable(ops(batch@)),
    ensures
        grown(old(provider), final(provider)),
        batch@.len() == 0 ==> r is Ok && r->Ok_0@ == root@ && *final(provider) == *old(provider),
        batch@.len() > 0 && (order == 0 || !sorted(ops(batch@))) ==> r is Err
            && r->Err_0 is Invariant && *final(provider) == *old(provider),
        forall|h: nat, s: Seq<(Seq<u8>, Seq<u8>)>|
            1 <= order <= max_fanout && sorted(ops(batch@)) && old(provider).faithful() && clash_free(final(provider).payloads()) && #[trigger] lists(
                old(provider).payloads(),
                root@,
                order,
                max_fanout,
                h,
                s,
            ) ==> match r {
                Ok(id) => {
                    &&& lists(
                        final(provider).payloads(),
                        id@,
                        order,
                        max_fanout,
                        h + 65,
                        apply_ops(s, ops(batch@)),
                    )
                    &&& already_holds(s, ops(batch@)) ==> id@ == root@ && final(provider).payloads() == old(provider).payloads()
                },
                Err(_) => old(provider).may_fail() || h > max_height(),
            },
{
    let ghost p0 = provider.payloads();
    let ghost sound = provider.faithful();
    let ghost b = ops(batch@);
    if batch.len() == 0 {
        proof {
            assert(b =~= Seq::empty());
            lemma_lists_taller(p0, root@, order, max_fanout);
        }
        return Ok(root);
    }
    if order == 0 {
        return Err(BTreeError::Invariant("zero order".to_string()));
    }
    if !batch_increases(batch) {
        return Err(
            BTreeError::Invariant(
                "apply_sorted_batch: batch not sorted / duplicate keys".to_string(),
            ),
        );
    }
    if root.is_zero() {
        let entries = batch_inserts(batch);
        let out = bulk_load(&entries, order, max_fanout, provider);
        proof {
            assert forall|h: nat, s: Seq<(Seq<u8>, Seq<u8>)>| #[trigger]
                lists(p0, root@, order, max_fanout, h, s) implies s == Seq::<
                (Seq<u8>, Seq<u8>),
            >::empty() by {
                assert(s =~= Seq::empty());
            }
            if already_holds(Seq::<(Seq<u8>, Seq<u8>)>::empty(), b) {
                lemma_apply_noop(Seq::<(Seq<u8>, Seq<u8>)>::empty(), b);
                assert(pair_views(entries@).len() == 0);
            }
            if let Ok(id) = out {
                lemma_lists_taller(provider.payloads(), id@, order, max_fanout);
            }
        }
        return out;
    }
    let ghost t = tree_at(p0, root@, order, max_fanout);
    let ghost limit = node_limit(max_fanout);
    let out = patch_rec(
        root,
        batch,
        0,
        batch.len(),
        0,
        order,
        max_fanout,
        provider,
        Ghost(t),
        Ghost(None),
        Ghost(None),
    );
    let ghost p1 = provider.payloads();
    let ghost p = patched(t, b, order as nat, limit);
    let parts = match out {
        Err(e) => {
            proof {
                if clash_free(p1) {
                    lemma_clash_free_subset(p0, p1);
                    lemma_tree_at(p0, root@, order, max_fanout);
                }
            }
            return Err(e);
        },
        Ok(v) => v,
    };
    proof {
        assert(b.subrange(0, b.len() as int) =~= b);
        if clash_free(p1) && sound && order <= max_fanout && holds(
            p0,
            root@,
            t,
            order,
            max_fanout,
            None,
            None,
        ) {
            lemma_patched(t, b, order as nat, limit, None, None, max_fanout);
            lemma_stored_mono(p0, p1, t, order);
            lemma_patch_stored(p1, t, b, order, limit, max_fanout, None, None);
            assert(tree_ids(p.trees, order).len() == p.trees.len());
            assert(id_views(parts.1@).len() == parts.1@.len());
            if already_holds(flat(t), b) {
                lemma_no_puts(t, b, order, limit, None, None);
                assert(p0.union(Seq::<Seq<u8>>::empty().to_set()) =~= p0);
                assert(tree_ids(p.trees, order)[0] == tree_id(t, order));
                assert(id_views(parts.1@)[0] == parts.1@[0]@);
            }
        }
    }
    if parts.1.len() == 0 {
        proof {
            if clash_free(p1) {
                lemma_clash_free_subset(p0, p1);
                lemma_tree_at(p0, root@, order, max_fanout);
            }
            assert forall|h: nat, s: Seq<(Seq<u8>, Seq<u8>)>|
                order <= max_fanout && sound && clash_free(p1) && #[trigger] lists(
                    p0,
                    root@,
                    order,
                    max_fanout,
                    h,
                    s,
                ) implies apply_ops(s, b).len() == 0 && !already_holds(s, b) by {
                assert(flats(p.trees) =~= Seq::empty());
            }
        }
        return Ok(ChunkId::zero());
    }
    let (id, top) = raise(
        parts,
        order,
        provider,
        Ghost(p),
        Ghost(max_fanout),
        Ghost(height(t)),
    );
    proof {
        let p2 = provider.payloads();
        if clash_free(p2) {
            lemma_clash_free_subset(p0, p2);
            lemma_clash_free_subset(p1, p2);
            lemma_tree_at(p0, root@, order, max_fanout);
            assert forall|h: nat, s: Seq<(Seq<u8>, Seq<u8>)>|
                order <= max_fanout && sound && #[trigger] lists(
                    p0,
                    root@,
                    order,
                    max_fanout,
                    h,
                    s,
                ) implies lists(p2, id@, order, max_fanout, h + 65, apply_ops(s, b)) && (
            already_holds(s, b) ==> id@ == root@ && p2 == p0) by {
                assert(holds(p2, id@, top@, order, max_fanout, None, None));
                assert(p2.contains(tree_bytes(top@, order)));
            }
        }
    }
    Ok(id)
}

/// A tree of few levels is one of at most more.
proof fn lemma_lists_taller(payloads: Set<Seq<u8>>, root: Seq<u8>, order: u16, max_fanout: u32)
    ensures
        forall|h: nat, g: nat, s: Seq<(Seq<u8>, Seq<u8>)>| #[trigger]
            lists(payloads, root, order, max_fanout, h, s) && h <= g ==> (#[trigger] lists(
                payloads,
                root,
                order,
                max_fanout,
                g,
                s,
            )),
{
    assert forall|h: nat, g: nat, s: Seq<(Seq<u8>, Seq<u8>)>| #[trigger]
        lists(payloads, root, order, max_fanout, h, s) && h <= g implies (#[trigger] lists(
        payloads,
        root,
        order,
        max_fanout,
        g,
        s,
    )) by {
        if root != zero_id() {
            let t = choose|t: Tree|
                #[trigger] holds(payloads, root, t, order, max_fanout, None, None) && height(t) <= h
                    && flat(t) == s;
            assert(holds(payloads, root, t, order, max_fanout, None, None));
        }
    }
}

/// Whether the keys of the batch strictly increase.
fn batch_increases(batch: &[BatchOp]) -> (r: bool)
    ensures
        r == sorted(ops(batch@)),
{
    let ghost s = ops(batch@);
    let n: usize = batch.len();
    let mut i: usize = 1;
    while i < n
        invariant
            1 <= i,
            n == batch@.len(),
            i <= n || n == 0,
            s == ops(batch@),
            n > 0 ==> sorted(s.take(i as int)),
        decreases n - i,
    {
        assert(s[i - 1].0 == batch@[i - 1].0@);
        assert(s[i as int].0 == batch@[i as int].0@);
        if !lex_less(&batch[i - 1].0, &batch[i].0) {
            return false;
        }
        proof {
            lemma_lex_order();
            let t = s.take(i + 1);
            let p = s.take(i as int);
            assert forall|a: int, c: int| #![trigger t[a], t[c]]
                0 <= a < c < t.len() implies lex_lt(t[a].0, t[c].0) by {
                assert(t[a] == p[a]);
                if c < i {
                    assert(t[c] == p[c]);
                } else if a < i - 1 {
                    assert(p[i - 1] == s[i - 1]);
                }
            }
        }
        i += 1;
    }
    proof {
        if n > 0 {
            assert(s.take(i as int) =~= s);
        }
    }
    true
}

/// The bindings of a batch: what it makes of an empty tree.
fn batch_inserts(batch: &[BatchOp]) -> (r: Vec<EntryPair>)
    requires
        sorted(ops(batch@)),
        ops_encodable(ops(batch@)),
    ensures
        pair_views(r@) == apply_ops(Seq::<(Seq<u8>, Seq<u8>)>::empty(), ops(batch@)),
        sorted(pair_views(r@)),
        leaf_encodable(pair_views(r@)),
{
    let ghost b = ops(batch@);
    let ghost none = Seq::<(Seq<u8>, Seq<u8>)>::empty();
    let mut out: Vec<EntryPair> = Vec::new();
    let mut i: usize = 0;
    proof {
        assert(pair_views(out@) =~= none);
        assert(b.take(0) =~= Seq::empty());
    }
    while i < batch.len()
        invariant
            i <= batch@.len(),
            b == ops(batch@),
            sorted(b),
            ops_encodable(b),
            none == Seq::<(Seq<u8>, Seq<u8>)>::empty(),
            pair_views(out@) == apply_ops(none, b.take(i as int)),
            sorted(pair_views(out@)),
            leaf_encodable(pair_views(out@)),
            i < batch@.len() ==> all_lt(pair_views(out@), b[i as int].0),
        decreases batch@.len() - i,
    {
        let ghost had = pair_views(out@);
        let ghost k = b[i as int].0;
        proof {
            lemma_lex_order();
            assert(b.take(i + 1).drop_last() =~= b.take(i as int));
            assert(b[i as int] == op_view(batch@[i as int]));
            lemma_rank_is(had, k, had.len() as int);
        }
        match &batch[i].1 {
            Some(v) => {
                out.push((copy_bytes(&batch[i].0), copy_bytes(v)));
                proof {
                    let now = pair_views(out@);
                    assert(now =~= had.push((k, v@)));
                    assert(now =~= had.insert(had.len() as int, (k, v@)));
                    assert forall|x: int, y: int| #![trigger now[x], now[y]]
                        0 <= x < y < now.len() implies lex_lt(now[x].0, now[y].0) by {
                        assert(now[x] == had[x]);
                        if y < had.len() {
                            assert(now[y] == had[y]);
                        }
                    }
                    assert forall|x: int| 0 <= x < now.len() implies (#[trigger] now[x]).0.len()
                        <= u16::MAX && now[x].1.len() <= u32::MAX by {
                        if x < had.len() {
                            assert(now[x] == had[x]);
                        }
                    }
                }
            },
            None => {},
        }
        proof {
            let now = pair_views(out@);
            if i + 1 < batch@.len() {
                let k2 = b[i + 1].0;
                assert(lex_lt(k, k2));
                assert forall|x: int| 0 <= x < now.len() implies lex_lt(
                    (#[trigger] now[x]).0,
                    k2,
                ) by {
                    if x < had.len() {
                        assert(now[x] == had[x]);
                    }
                }
            }
        }
        i += 1;
    }
    assert(b.take(i as int) =~= b);
    out
}

} // verus!
