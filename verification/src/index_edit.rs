//! Single-key mutations of the copy-on-write tree.

use vstd::prelude::*;

use crate::bytes::{copy_bytes, lemma_lex_order, lex_lt};
use crate::chunk::{digest, zero_id, ChunkId};
use crate::growth::{remove_keeps_stocked, stocked, stocked_lists_something};
use crate::index::{added, branch_of, fetch, find_entry, find_slot, grown, id_views, key_views,
    lemma_added_none, lemma_added_one, lemma_added_then, lemma_branch, lemma_kid_holds, opt_bytes, BTreeError, ObjectProvider, Promotion, RemoveResult};
use crate::patch::{branch_halves, insert_puts, insert_root_puts, inserted, join, leaf_halves, one,
    payloads_of, remove_puts, removed, rewritten, run, split_branch, split_leaf, topped, Parts};
use crate::node::{encodable, leaf_encodable, node_bytes, pairs, Entry, Node};
use crate::sorted::{concat, erase, has_key, lemma_concat_at, lemma_concat_one, lemma_concat_split,
    lemma_erase_context, lemma_erase_sorted, lemma_rank, lemma_rank_context, lemma_upsert_context,
    lemma_upsert_sorted, lookup, rank, sorted, upsert};
use crate::tree::{clash_free, coded, covers, flat, flats, height, holds, inside, kid_hi, kid_lo,
    lemma_flat, lemma_height_bound, lemma_height_kids, lemma_node_of, lemma_ordered_flat,
    lemma_ordered_keyed, lemma_ordered_widen, lemma_route, lemma_sized_coded, lemma_slot, lemma_stored_mono,
    lemma_tree_at, lemma_tree_unique, lists, max_height, node_of, ordered, seps_encodable, sized,
    stored, tree_at, tree_bytes, tree_id, tree_ids, within, Tree};

verus! {

// ---------------------------------------------------------------------------
// Writing nodes
// ---------------------------------------------------------------------------

/// Register the node and return its id.
pub(crate) fn put_node<P: ObjectProvider>(provider: &mut P, node: &Node, order: u16) -> (r: ChunkId)
    requires
        encodable(node@),
    ensures
        grown(old(provider), final(provider)),
        final(provider).payloads() == old(provider).payloads().insert(node_bytes(node@, order)),
        old(provider).faithful() ==> final(provider).puts() == old(provider).puts().push(
            node_bytes(node@, order),
        ),
        r@ == digest(node_bytes(node@, order)),
{
    let bytes = node.encode(order);
    let id = ChunkId::of(&bytes);
    provider.put(id, bytes);
    id
}

/// Register the leaf `entries`.
pub(crate) fn put_leaf<P: ObjectProvider>(
    provider: &mut P,
    entries: Vec<Entry>,
    order: u16,
) -> (r: ChunkId)
    requires
        leaf_encodable(pairs(entries@)),
    ensures
        grown(old(provider), final(provider)),
        r@ == tree_id((Tree::Leaf { entries: pairs(entries@) }), order),
        stored(final(provider).payloads(), (Tree::Leaf { entries: pairs(entries@) }), order),
        added(
            old(provider),
            final(provider),
            seq![tree_bytes((Tree::Leaf { entries: pairs(entries@) }), order)],
        ),
{
    let node = Node::Leaf { entries };
    let id = put_node(provider, &node, order);
    proof {
        lemma_added_one(old(provider), provider, node_bytes(node@, order));
    }
    id
}

/// Register the internal node over `kids[from..=to]`, whose trees are
/// `trees[from..=to]`.
#[verifier::rlimit(30)]
#[verifier::spinoff_prover]
pub(crate) fn put_branch<P: ObjectProvider>(
    provider: &mut P,
    seps: &Vec<Vec<u8>>,
    kids: &Vec<ChunkId>,
    from: usize,
    to: usize,
    order: u16,
    Ghost(trees): Ghost<Seq<Tree>>,
) -> (r: ChunkId)
    requires
        kids@.len() == seps@.len() + 1,
        from <= to < kids@.len(),
        seps_encodable(key_views(seps@)),
    ensures
        grown(old(provider), final(provider)),
        matched(old(provider).payloads(), id_views(kids@), trees, order) ==> {
            let t = Tree::Internal {
                seps: key_views(seps@).subrange(from as int, to as int),
                kids: trees.subrange(from as int, to + 1),
            };
            &&& r@ == tree_id(t, order)
            &&& stored(final(provider).payloads(), t, order)
        },
        id_views(kids@) == tree_ids(trees, order) ==> {
            let t = Tree::Internal {
                seps: key_views(seps@).subrange(from as int, to as int),
                kids: trees.subrange(from as int, to + 1),
            };
            &&& r@ == tree_id(t, order)
            &&& added(old(provider), final(provider), seq![tree_bytes(t, order)])
        },
{
    let mut entries: Vec<Entry> = Vec::with_capacity(to - from);
    let mut i: usize = from;
    while i < to
        invariant
            from <= i <= to < kids@.len(),
            kids@.len() == seps@.len() + 1,
            entries@.len() == i - from,
            seps_encodable(key_views(seps@)),
            forall|j: int|
                0 <= j < i - from ==> (#[trigger] entries@[j]).key@ == seps@[from + j]@
                    && entries@[j].value@ == kids@[from + j + 1]@,
        decreases to - i,
    {
        entries.push(
            Entry { key: copy_bytes(&seps[i]), value: copy_bytes(kids[i + 1].as_slice()) },
        );
        i += 1;
    }
    let ghost es = pairs(entries@);
    let ghost ks = key_views(seps@);
    proof {
        assert forall|j: int| 0 <= j < es.len() implies (#[trigger] es[j]).0.len() <= u16::MAX
            && es[j].1.len() == 32 by {
            assert(es[j] == (entries@[j].key@, entries@[j].value@));
            assert(ks[from + j] == seps@[from + j]@);
        }
    }
    let first_child = kids[from];
    let node = Node::Internal { first_child, entries };
    let id = put_node(provider, &node, order);
    proof {
        lemma_added_one(old(provider), provider, node_bytes(node@, order));
        if matched(old(provider).payloads(), id_views(kids@), trees, order) {
            assert(id_views(kids@) =~= tree_ids(trees, order));
        }
        if id_views(kids@) == tree_ids(trees, order) {
            assert(tree_ids(trees, order).len() == trees.len());
            assert(id_views(kids@).len() == kids@.len());
            assert(trees.len() == kids@.len());
            let t = Tree::Internal {
                seps: ks.subrange(from as int, to as int),
                kids: trees.subrange(from as int, to + 1),
            };
            let ids = tree_ids(t->kids, order);
            lemma_node_of(t, order);
            assert(ids[0] == tree_id(trees[from as int], order));
            assert(id_views(kids@)[from as int] == kids@[from as int]@);
            let tes = node_of(t, order)->Internal_entries;
            assert(tes =~= es) by {
                assert forall|j: int| 0 <= j < es.len() implies #[trigger] tes[j] == es[j] by {
                    assert(tes[j] == (t->seps[j], ids[j + 1]));
                    assert(es[j] == (entries@[j].key@, entries@[j].value@));
                    assert(ids[j + 1] == tree_id(trees[from + j + 1], order));
                    assert(id_views(kids@)[from + j + 1] == kids@[from + j + 1]@);
                    assert(tree_ids(trees, order)[from + j + 1] == tree_id(
                        trees[from + j + 1],
                        order,
                    ));
                }
            }
            assert(tree_ids(trees, order)[from as int] == tree_id(trees[from as int], order));
            assert(node_of(t, order) == node@);
        }
        if matched(old(provider).payloads(), id_views(kids@), trees, order) {
            let t = Tree::Internal {
                seps: ks.subrange(from as int, to as int),
                kids: trees.subrange(from as int, to + 1),
            };
            assert forall|j: int| 0 <= j < t->kids.len() implies stored(
                provider.payloads(),
                #[trigger] t->kids[j],
                order,
            ) by {
                assert(t->kids[j] == trees[from + j]);
                lemma_stored_mono(
                    old(provider).payloads(),
                    provider.payloads(),
                    trees[from + j],
                    order,
                );
            }
        }
    }
    id
}

/// `ids` are the ids of `trees`, all held and encodable.
pub open spec fn matched(
    payloads: Set<Seq<u8>>,
    ids: Seq<Seq<u8>>,
    trees: Seq<Tree>,
    order: u16,
) -> bool {
    &&& trees.len() == ids.len()
    &&& forall|i: int|
        0 <= i < trees.len() ==> ids[i] == tree_id(#[trigger] trees[i], order) && stored(
            payloads,
            trees[i],
            order,
        ) && coded(trees[i])
}

/// What a rewritten subtree is: one node at `id`, or two with a separator
/// between them, that list `want` between the bounds.
pub open spec fn built(
    payloads: Set<Seq<u8>>,
    order: u16,
    lo: Option<Seq<u8>>,
    hi: Option<Seq<u8>>,
    want: Seq<(Seq<u8>, Seq<u8>)>,
    hmax: nat,
    id: Seq<u8>,
    promote: Option<(Seq<u8>, Seq<u8>)>,
    l: Tree,
    r: Tree,
) -> bool {
    &&& id == tree_id(l, order)
    &&& stored(payloads, l, order)
    &&& coded(l)
    &&& height(l) <= hmax
    &&& match promote {
        None => ordered(l, lo, hi) && flat(l) == want,
        Some((sep, right)) => {
            &&& right == tree_id(r, order)
            &&& stored(payloads, r, order)
            &&& coded(r)
            &&& height(r) <= hmax
            &&& inside(lo, hi, sep)
            &&& ordered(l, lo, Some(sep))
            &&& ordered(r, Some(sep), hi)
            &&& flat(l) + flat(r) == want
        },
    }
}

/// A rewritten subtree as parts.
pub open spec fn made(promote: Option<(Seq<u8>, Seq<u8>)>, l: Tree, r: Tree) -> Parts {
    match promote {
        None => one(l),
        Some((sep, _)) => join(one(l), sep, one(r)),
    }
}

/// The ids stand for the trees of a rewritten subtree.
pub open spec fn made_ids(
    id: Seq<u8>,
    promote: Option<(Seq<u8>, Seq<u8>)>,
    l: Tree,
    r: Tree,
    order: u16,
) -> bool {
    id == tree_id(l, order) && (promote matches Some((_, right)) ==> right == tree_id(r, order))
}

/// Every part of a rewritten subtree is within the reader's limits.
pub open spec fn built_sized(promote: Option<(Seq<u8>, Seq<u8>)>, l: Tree, r: Tree, f: u32) -> bool {
    sized(l, f) && (promote is Some ==> sized(r, f))
}

pub open spec fn promotion(p: Promotion) -> Option<(Seq<u8>, Seq<u8>)> {
    match p {
        Some((k, id)) => Some((k@, id@)),
        None => None,
    }
}

pub open spec fn promotion_encodable(p: Promotion) -> bool {
    p matches Some((k, _)) ==> k@.len() <= u16::MAX
}

/// Write a leaf, split in two where it is over-full: the left half, and the
/// right half behind its first key.
pub(crate) fn finish_leaf<P: ObjectProvider>(
    provider: &mut P,
    entries: Vec<Entry>,
    order: u16,
    Ghost(max_fanout): Ghost<u32>,
    Ghost(lo): Ghost<Option<Seq<u8>>>,
    Ghost(hi): Ghost<Option<Seq<u8>>>,
) -> (out: (ChunkId, Promotion, Ghost<(Tree, Tree)>))
    requires
        leaf_encodable(pairs(entries@)),
    ensures
        grown(old(provider), final(provider)),
        promotion_encodable(out.1),
        1 <= order && sorted(pairs(entries@)) && within(pairs(entries@), lo, hi) ==> built(
            final(provider).payloads(),
            order,
            lo,
            hi,
            pairs(entries@),
            1,
            out.0@,
            promotion(out.1),
            out.2@.0,
            out.2@.1,
        ),
        order <= max_fanout && entries@.len() <= 2 * max_fanout && entries@.len() <= 2 * u16::MAX
            ==> built_sized(promotion(out.1), out.2@.0, out.2@.1, max_fanout),
        ({
            let p = split_leaf(pairs(entries@), order as nat, entries@.len());
            &&& made(promotion(out.1), out.2@.0, out.2@.1) == p
            &&& made_ids(out.0@, promotion(out.1), out.2@.0, out.2@.1, order)
            &&& added(old(provider), final(provider), payloads_of(p.trees, order))
        }),
{
    let ghost all = pairs(entries@);
    let mut entries = entries;
    if entries.len() > order as usize {
        let mid: usize = entries.len() / 2;
        let right = entries.split_off(mid);
        let ghost a = pairs(entries@);
        let ghost b = pairs(right@);
        proof {
            assert(a =~= all.take(mid as int));
            assert(b =~= all.skip(mid as int));
            assert(a + b =~= all);
            assert forall|i: int| 0 <= i < a.len() implies (#[trigger] a[i]).0.len() <= u16::MAX
                && a[i].1.len() <= u32::MAX by {
                assert(a[i] == all[i]);
            }
            assert forall|i: int| 0 <= i < b.len() implies (#[trigger] b[i]).0.len() <= u16::MAX
                && b[i].1.len() <= u32::MAX by {
                assert(b[i] == all[mid + i]);
            }
            assert(b[0] == (right@[0].key@, right@[0].value@));
        }
        let median = copy_bytes(&right[0].key);
        let left_id = put_leaf(provider, entries, order);
        let ghost l = Tree::Leaf { entries: a };
        let ghost r = Tree::Leaf { entries: b };
        let ghost p1 = provider.payloads();
        let ghost between = *provider;
        let right_id = put_leaf(provider, right, order);
        proof {
            let p = join(one(l), median@, one(r));
            assert(leaf_halves(a, all.len()) == one(l));
            assert(leaf_halves(b, all.len()) == one(r));
            assert(payloads_of(p.trees, order) =~= seq![tree_bytes(l, order)]
                + seq![tree_bytes(r, order)]);
            lemma_added_then(
                old(provider),
                &between,
                provider,
                seq![tree_bytes(l, order)],
                seq![tree_bytes(r, order)],
            );
            lemma_stored_mono(p1, provider.payloads(), l, order);
            if 1 <= order && sorted(all) && within(all, lo, hi) {
                lemma_lex_order();
                assert(all[mid as int].0 == median@);
                assert(lex_lt(all[0].0, all[mid as int].0));
                assert forall|i: int, j: int| #![trigger a[i], a[j]]
                    0 <= i < j < a.len() implies lex_lt(a[i].0, a[j].0) by {
                    assert(a[i] == all[i] && a[j] == all[j]);
                }
                assert forall|i: int, j: int| #![trigger b[i], b[j]]
                    0 <= i < j < b.len() implies lex_lt(b[i].0, b[j].0) by {
                    assert(b[i] == all[mid + i] && b[j] == all[mid + j]);
                }
                assert forall|i: int| 0 <= i < a.len() implies lex_lt((#[trigger] a[i]).0, median@)
                    && (lo is Some ==> !lex_lt(a[i].0, lo->0)) by {
                    assert(a[i] == all[i]);
                }
                assert forall|i: int| 0 <= i < b.len() implies !lex_lt((#[trigger] b[i]).0, median@)
                    && (hi is Some ==> lex_lt(b[i].0, hi->0)) by {
                    assert(b[i] == all[mid + i]);
                }
            }
        }
        (left_id, Some((median, right_id)), Ghost((l, r)))
    } else {
        let id = put_leaf(provider, entries, order);
        assert(payloads_of(one(Tree::Leaf { entries: all }).trees, order) =~= seq![
            tree_bytes(Tree::Leaf { entries: all }, order),
        ]);
        (id, None, Ghost((Tree::Leaf { entries: all }, Tree::Leaf { entries: all })))
    }
}

/// A run of the children of a search tree is a search tree between the
/// separators around the run.
pub(crate) proof fn lemma_ordered_run(
    seps: Seq<Seq<u8>>,
    kids: Seq<Tree>,
    lo: Option<Seq<u8>>,
    hi: Option<Seq<u8>>,
    from: int,
    to: int,
)
    requires
        ordered((Tree::Internal { seps, kids }), lo, hi),
        0 <= from <= to < kids.len(),
    ensures
        ordered(
            (Tree::Internal { seps: seps.subrange(from, to), kids: kids.subrange(from, to + 1) }),
            kid_lo(seps, lo, from),
            kid_hi(seps, hi, to),
        ),
{
    lemma_lex_order();
    let s2 = seps.subrange(from, to);
    let k2 = kids.subrange(from, to + 1);
    let lo2 = kid_lo(seps, lo, from);
    let hi2 = kid_hi(seps, hi, to);
    assert forall|i: int, j: int| #![trigger s2[i], s2[j]] 0 <= i < j < s2.len() implies lex_lt(
        s2[i],
        s2[j],
    ) by {
        assert(s2[i] == seps[from + i] && s2[j] == seps[from + j]);
    }
    assert forall|i: int| 0 <= i < s2.len() implies inside(lo2, hi2, #[trigger] s2[i]) by {
        assert(s2[i] == seps[from + i]);
        assert(inside(lo, hi, seps[from + i]));
        if from > 0 {
            assert(lex_lt(seps[from - 1], seps[from + i]));
        }
        if to < seps.len() {
            assert(lex_lt(seps[from + i], seps[to]));
        }
    }
    assert forall|i: int| 0 <= i < k2.len() implies ordered(
        #[trigger] k2[i],
        kid_lo(s2, lo2, i),
        kid_hi(s2, hi2, i),
    ) by {
        assert(k2[i] == kids[from + i]);
        assert(ordered(kids[from + i], kid_lo(seps, lo, from + i), kid_hi(seps, hi, from + i)));
        assert(kid_lo(s2, lo2, i) == kid_lo(seps, lo, from + i));
        assert(kid_hi(s2, hi2, i) == kid_hi(seps, hi, from + i));
    }
}

/// Write an internal node, split in two where it is over-full: the median
/// separator moves up.
pub(crate) fn finish_branch<P: ObjectProvider>(
    provider: &mut P,
    seps: Vec<Vec<u8>>,
    kids: Vec<ChunkId>,
    order: u16,
    Ghost(max_fanout): Ghost<u32>,
    Ghost(trees): Ghost<Seq<Tree>>,
    Ghost(lo): Ghost<Option<Seq<u8>>>,
    Ghost(hi): Ghost<Option<Seq<u8>>>,
    Ghost(hmax): Ghost<nat>,
) -> (out: (ChunkId, Promotion, Ghost<(Tree, Tree)>))
    requires
        kids@.len() == seps@.len() + 1,
        seps_encodable(key_views(seps@)),
    ensures
        grown(old(provider), final(provider)),
        promotion_encodable(out.1),
        matched(old(provider).payloads(), id_views(kids@), trees, order) && ordered(
            (Tree::Internal { seps: key_views(seps@), kids: trees }),
            lo,
            hi,
        ) && (forall|i: int| 0 <= i < trees.len() ==> height(#[trigger] trees[i]) <= hmax)
            ==> built(
            final(provider).payloads(),
            order,
            lo,
            hi,
            concat(flats(trees)),
            hmax + 1,
            out.0@,
            promotion(out.1),
            out.2@.0,
            out.2@.1,
        ),
        order <= max_fanout && trees.len() == kids@.len() && seps@.len() <= 2 * max_fanout + 1
            && seps@.len() <= 2 * u16::MAX + 1 && (forall|i: int|
            0 <= i < trees.len() ==> sized(#[trigger] trees[i], max_fanout)) ==> built_sized(
            promotion(out.1),
            out.2@.0,
            out.2@.1,
            max_fanout,
        ),
        id_views(kids@) == tree_ids(trees, order) ==> {
            let p = split_branch(
                Parts { seps: key_views(seps@), trees },
                order as nat,
                seps@.len(),
            );
            &&& made(promotion(out.1), out.2@.0, out.2@.1) == p
            &&& made_ids(out.0@, promotion(out.1), out.2@.0, out.2@.1, order)
            &&& added(old(provider), final(provider), payloads_of(p.trees, order))
        },
{
    let ghost ks = key_views(seps@);
    let ghost p0 = provider.payloads();
    let n: usize = seps.len();
    if n > order as usize {
        let mid: usize = n / 2;
        let median = copy_bytes(&seps[mid]);
        let ghost l = Tree::Internal { seps: ks.subrange(0, mid as int), kids: trees.subrange(0, mid + 1) };
        let ghost r = Tree::Internal {
            seps: ks.subrange(mid + 1, n as int),
            kids: trees.subrange(mid + 1, n + 1),
        };
        let left_id = put_branch(provider, &seps, &kids, 0, mid, order, Ghost(trees));
        let ghost p1 = provider.payloads();
        let ghost between = *provider;
        proof {
            if matched(p0, id_views(kids@), trees, order) {
                assert forall|i: int| 0 <= i < trees.len() implies id_views(kids@)[i] == tree_id(
                    #[trigger] trees[i],
                    order,
                ) && stored(p1, trees[i], order) && coded(trees[i]) by {
                    lemma_stored_mono(p0, p1, trees[i], order);
                }
            }
        }
        let right_id = put_branch(provider, &seps, &kids, mid + 1, n, order, Ghost(trees));
        proof {
            assert(ks[mid as int] == median@);
            if id_views(kids@) == tree_ids(trees, order) {
                let q = Parts { seps: ks, trees };
                assert(tree_ids(trees, order).len() == trees.len());
                let p = join(one(l), median@, one(r));
                assert(branch_halves(run(q, 0, mid as int), n as nat) == one(l));
                assert(branch_halves(run(q, mid + 1, n as int), n as nat) == one(r));
                assert(payloads_of(p.trees, order) =~= seq![tree_bytes(l, order)]
                    + seq![tree_bytes(r, order)]);
                lemma_added_then(
                    old(provider),
                    &between,
                    provider,
                    seq![tree_bytes(l, order)],
                    seq![tree_bytes(r, order)],
                );
            }
            if matched(p0, id_views(kids@), trees, order) {
                lemma_stored_mono(p1, provider.payloads(), l, order);
                lemma_run_coded(ks, trees, 0, mid as int);
                lemma_run_coded(ks, trees, mid + 1, n as int);
                if ordered((Tree::Internal { seps: ks, kids: trees }), lo, hi) && (forall|i: int|
                    0 <= i < trees.len() ==> height(#[trigger] trees[i]) <= hmax) {
                    lemma_ordered_run(ks, trees, lo, hi, 0, mid as int);
                    lemma_ordered_run(ks, trees, lo, hi, mid + 1, n as int);
                    lemma_height_bound(l->seps, l->kids, hmax);
                    lemma_height_bound(r->seps, r->kids, hmax);
                    lemma_flat(l->seps, l->kids);
                    lemma_flat(r->seps, r->kids);
                    assert(flats(trees) =~= flats(l->kids) + flats(r->kids));
                    lemma_concat_split(flats(l->kids), flats(r->kids));
                    assert(inside(lo, hi, ks[mid as int]));
                }
            }
            lemma_run_sized(ks, trees, 0, mid as int, max_fanout);
            lemma_run_sized(ks, trees, mid + 1, n as int, max_fanout);
        }
        (left_id, Some((median, right_id)), Ghost((l, r)))
    } else {
        let id = put_branch(provider, &seps, &kids, 0, n, order, Ghost(trees));
        let ghost l = Tree::Internal { seps: ks, kids: trees };
        proof {
            assert(ks.subrange(0, n as int) =~= ks);
            if trees.len() == n + 1 {
                assert(trees.subrange(0, n + 1) =~= trees);
            }
            if id_views(kids@) == tree_ids(trees, order) {
                assert(tree_ids(trees, order).len() == trees.len());
                assert(payloads_of(one(l).trees, order) =~= seq![tree_bytes(l, order)]);
            }
            lemma_flat(ks, trees);
            if forall|i: int| 0 <= i < trees.len() ==> height(#[trigger] trees[i]) <= hmax {
                lemma_height_bound(ks, trees, hmax);
            }
            if trees.len() == n + 1 {
                lemma_run_sized(ks, trees, 0, n as int, max_fanout);
            }
        }
        (id, None, Ghost((l, l)))
    }
}

proof fn lemma_run_coded(seps: Seq<Seq<u8>>, kids: Seq<Tree>, from: int, to: int)
    requires
        seps_encodable(seps),
        kids.len() == seps.len() + 1,
        0 <= from <= to <= seps.len(),
        forall|i: int| 0 <= i < kids.len() ==> coded(#[trigger] kids[i]),
    ensures
        coded(
            (Tree::Internal { seps: seps.subrange(from, to), kids: kids.subrange(from, to + 1) }),
        ),
{
    let s2 = seps.subrange(from, to);
    let k2 = kids.subrange(from, to + 1);
    assert forall|i: int| 0 <= i < s2.len() implies (#[trigger] s2[i]).len() <= u16::MAX by {
        assert(s2[i] == seps[from + i]);
    }
    assert forall|i: int| 0 <= i < k2.len() implies coded(#[trigger] k2[i]) by {
        assert(k2[i] == kids[from + i]);
    }
}

proof fn lemma_run_sized(seps: Seq<Seq<u8>>, kids: Seq<Tree>, from: int, to: int, f: u32)
    requires
        seps_encodable(seps),
        0 <= from <= to <= seps.len(),
    ensures
        kids.len() == seps.len() + 1 && to - from <= f && to - from <= u16::MAX && (forall|i: int|
            0 <= i < kids.len() ==> sized(#[trigger] kids[i], f)) ==> sized(
            (Tree::Internal { seps: seps.subrange(from, to), kids: kids.subrange(from, to + 1) }),
            f,
        ),
{
    let s2 = seps.subrange(from, to);
    let k2 = kids.subrange(from, to + 1);
    if kids.len() == seps.len() + 1 && to - from <= f && to - from <= u16::MAX && (forall|i: int|
        0 <= i < kids.len() ==> sized(#[trigger] kids[i], f)) {
        assert forall|i: int| 0 <= i < s2.len() implies (#[trigger] s2[i]).len() <= u16::MAX by {
            assert(s2[i] == seps[from + i]);
        }
        assert forall|i: int| 0 <= i < k2.len() implies sized(#[trigger] k2[i], f) by {
            assert(k2[i] == kids[from + i]);
        }
    }
}

// ---------------------------------------------------------------------------
// Insert
// ---------------------------------------------------------------------------

/// Binding a key between the bounds leaves a listing between them.
pub(crate) proof fn lemma_upsert_within(
    s: Seq<(Seq<u8>, Seq<u8>)>,
    k: Seq<u8>,
    v: Seq<u8>,
    lo: Option<Seq<u8>>,
    hi: Option<Seq<u8>>,
)
    requires
        sorted(s),
        within(s, lo, hi),
        covers(lo, hi, k),
    ensures
        within(upsert(s, k, v), lo, hi),
{
    lemma_rank(s, k);
    let r = rank(s, k);
    let u = upsert(s, k, v);
    assert forall|i: int| 0 <= i < u.len() implies covers(lo, hi, (#[trigger] u[i]).0) by {
        if i != r {
            let j = if has_key(s, k) || i < r { i } else { i - 1 };
            assert(u[i] == s[j]);
        }
    }
}

/// The separators and children of an internal node after child `c` was
/// rewritten.
pub open spec fn new_seps(
    seps: Seq<Seq<u8>>,
    c: int,
    promote: Option<(Seq<u8>, Seq<u8>)>,
) -> Seq<Seq<u8>> {
    match promote {
        None => seps,
        Some((sep, _)) => seps.insert(c, sep),
    }
}

pub open spec fn new_kids(
    kids: Seq<Tree>,
    c: int,
    promote: Option<(Seq<u8>, Seq<u8>)>,
    l: Tree,
    r: Tree,
) -> Seq<Tree> {
    match promote {
        None => kids.update(c, l),
        Some(_) => kids.update(c, l).insert(c + 1, r),
    }
}

/// Replacing a child by what it was rewritten to keeps the search order, and
/// changes the listing in the child's part alone.
pub(crate) proof fn lemma_replace_kid(
    payloads: Set<Seq<u8>>,
    order: u16,
    seps: Seq<Seq<u8>>,
    kids: Seq<Tree>,
    lo: Option<Seq<u8>>,
    hi: Option<Seq<u8>>,
    c: int,
    want: Seq<(Seq<u8>, Seq<u8>)>,
    hmax: nat,
    id: Seq<u8>,
    promote: Option<(Seq<u8>, Seq<u8>)>,
    l: Tree,
    r: Tree,
)
    requires
        ordered((Tree::Internal { seps, kids }), lo, hi),
        0 <= c < kids.len(),
        built(
            payloads,
            order,
            kid_lo(seps, lo, c),
            kid_hi(seps, hi, c),
            want,
            hmax,
            id,
            promote,
            l,
            r,
        ),
    ensures
        ordered(
            (Tree::Internal {
                seps: new_seps(seps, c, promote),
                kids: new_kids(kids, c, promote, l, r),
            }),
            lo,
            hi,
        ),
        concat(flats(new_kids(kids, c, promote, l, r))) == concat(flats(kids).take(c)) + want
            + concat(flats(kids).skip(c + 1)),
{
    lemma_lex_order();
    let fs = flats(kids);
    let s2 = new_seps(seps, c, promote);
    let k2 = new_kids(kids, c, promote, l, r);
    let f2 = flats(k2);
    match promote {
        None => {
            assert forall|i: int| 0 <= i < k2.len() implies ordered(
                #[trigger] k2[i],
                kid_lo(s2, lo, i),
                kid_hi(s2, hi, i),
            ) by {
                if i != c {
                    assert(k2[i] == kids[i]);
                }
            }
            lemma_concat_at(f2, c);
            assert(f2.take(c) =~= fs.take(c));
            assert(f2.skip(c + 1) =~= fs.skip(c + 1));
        },
        Some((sep, right)) => {
            assert forall|i: int, j: int| #![trigger s2[i], s2[j]]
                0 <= i < j < s2.len() implies lex_lt(s2[i], s2[j]) by {
                let si = if i < c { i } else { i - 1 };
                let sj = if j < c { j } else { j - 1 };
                if i != c {
                    assert(s2[i] == seps[si]);
                }
                if j != c {
                    assert(s2[j] == seps[sj]);
                }
                if i == c {
                    if j > c + 1 {
                        assert(lex_lt(seps[c], seps[sj]));
                    }
                } else if j == c {
                    if i < c - 1 {
                        assert(lex_lt(seps[si], seps[c - 1]));
                    }
                }
            }
            assert forall|i: int| 0 <= i < s2.len() implies inside(lo, hi, #[trigger] s2[i]) by {
                if i < c {
                    assert(s2[i] == seps[i]);
                } else if i > c {
                    assert(s2[i] == seps[i - 1]);
                } else {
                    if c > 0 {
                        assert(inside(lo, hi, seps[c - 1]));
                    }
                    if c < seps.len() {
                        assert(inside(lo, hi, seps[c]));
                    }
                }
            }
            assert forall|i: int| 0 <= i < k2.len() implies ordered(
                #[trigger] k2[i],
                kid_lo(s2, lo, i),
                kid_hi(s2, hi, i),
            ) by {
                if i < c {
                    assert(k2[i] == kids[i]);
                    assert(ordered(kids[i], kid_lo(seps, lo, i), kid_hi(seps, hi, i)));
                } else if i > c + 1 {
                    assert(k2[i] == kids[i - 1]);
                    assert(ordered(kids[i - 1], kid_lo(seps, lo, i - 1), kid_hi(seps, hi, i - 1)));
                } else if i == c {
                    assert(k2[i] == l);
                } else {
                    assert(k2[i] == r);
                }
            }
            lemma_concat_at(f2, c);
            assert(f2.take(c) =~= fs.take(c));
            let z = f2.skip(c + 1);
            assert(z =~= seq![flat(r)] + fs.skip(c + 1));
            lemma_concat_split(seq![flat(r)], fs.skip(c + 1));
            lemma_concat_one(flat(r));
            assert(concat(f2) =~= concat(fs.take(c)) + want + concat(fs.skip(c + 1)));
        },
    }
}

/// Insert (or replace) a key; returns the new root id.
pub fn insert<P: ObjectProvider>(
    root: ChunkId,
    key: &[u8],
    value: &[u8],
    order: u16,
    max_fanout: u32,
    provider: &mut P,
) -> (r: Result<ChunkId, BTreeError>)
    ensures
        grown(old(provider), final(provider)),
        key@.len() > u16::MAX ==> r == Err::<ChunkId, BTreeError>(BTreeError::KeyTooLong),
        key@.len() <= u16::MAX && value@.len() > u32::MAX ==> r == Err::<ChunkId, BTreeError>(
            BTreeError::ValueTooLarge,
        ),
        root@ == zero_id() && key@.len() <= u16::MAX && value@.len() <= u32::MAX ==> r is Ok
            && added(
            old(provider),
            final(provider),
            seq![tree_bytes((Tree::Leaf { entries: seq![(key@, value@)] }), order)],
        ),
        forall|h: nat, s: Seq<(Seq<u8>, Seq<u8>)>|
            key@.len() <= u16::MAX && value@.len() <= u32::MAX && 1 <= order <= max_fanout && old(provider).faithful() && clash_free(
                final(provider).payloads(),
            ) && #[trigger] lists(old(provider).payloads(), root@, order, max_fanout, h, s)
                ==> match r {
                Ok(id) => lists(
                    final(provider).payloads(),
                    id@,
                    order,
                    max_fanout,
                    h + 1,
                    upsert(s, key@, value@),
                ) && id@ != zero_id(),
                Err(_) => old(provider).may_fail() || h > max_height(),
            },
        r is Err ==> *final(provider) == *old(provider),
        forall|h: nat, s: Seq<(Seq<u8>, Seq<u8>)>|
            r is Ok && root@ != zero_id() && 1 <= order <= max_fanout && old(provider).faithful()
                && clash_free(old(provider).payloads()) && #[trigger] lists(
                old(provider).payloads(),
                root@,
                order,
                max_fanout,
                h,
                s,
            ) ==> {
                let t = tree_at(old(provider).payloads(), root@, order, max_fanout);
                &&& r->Ok_0@ == tree_id(topped(inserted(t, key@, value@, order as nat)), order)
                &&& added(
                    old(provider),
                    final(provider),
                    insert_root_puts(t, key@, value@, order),
                )
            },
{
    let ghost p0 = provider.payloads();
    if key.len() > 0xffff {
        return Err(BTreeError::KeyTooLong);
    }
    if value.len() > 0xffff_ffff {
        return Err(BTreeError::ValueTooLarge);
    }
    if root.is_zero() {
        let mut entries: Vec<Entry> = Vec::new();
        entries.push(Entry { key: copy_bytes(key), value: copy_bytes(value) });
        let ghost t = Tree::Leaf { entries: pairs(entries@) };
        assert(pairs(entries@) =~= seq![(key@, value@)]);
        let id = put_leaf(provider, entries, order);
        proof {
            assert forall|h: nat, s: Seq<(Seq<u8>, Seq<u8>)>|
                1 <= order <= max_fanout && clash_free(provider.payloads()) && #[trigger] lists(
                    p0,
                    root@,
                    order,
                    max_fanout,
                    h,
                    s,
                ) implies lists(
                provider.payloads(),
                id@,
                order,
                max_fanout,
                h + 1,
                upsert(s, key@, value@),
            ) && id@ != zero_id() by {
                assert(upsert(s, key@, value@) =~= seq![(key@, value@)]);
                assert(provider.payloads().contains(tree_bytes(t, order)));
                assert(holds(provider.payloads(), id@, t, order, max_fanout, None, None));
            }
        }
        return Ok(id);
    }
    let ghost t = tree_at(p0, root@, order, max_fanout);
    let ghost plain = 1 <= order <= max_fanout && provider.faithful() && clash_free(p0) && holds(
        p0,
        root@,
        t,
        order,
        max_fanout,
        None,
        None,
    );
    proof {
        if clash_free(p0) {
            lemma_tree_at(p0, root@, order, max_fanout);
        }
    }
    let (id, promote, ghost_out) = match insert_rec(
        root,
        key,
        value,
        order,
        max_fanout,
        provider,
        0,
        Ghost(t),
        Ghost(None),
        Ghost(None),
    ) {
        Ok(v) => v,
        Err(e) => {
            proof {
                if clash_free(provider.payloads()) {
                    lemma_clash_free_subset(p0, provider.payloads());
                    lemma_tree_at(p0, root@, order, max_fanout);
                }
            }
            return Err(e);
        },
    };
    let ghost p1 = provider.payloads();
    let ghost (l, rt) = ghost_out@;
    let id = match promote {
        None => {
            proof {
                assert forall|h: nat, s: Seq<(Seq<u8>, Seq<u8>)>|
                    1 <= order <= max_fanout && old(provider).faithful()
                        && clash_free(p1) && #[trigger] lists(
                        p0,
                        root@,
                        order,
                        max_fanout,
                        h,
                        s,
                    ) implies lists(
                    p1,
                    id@,
                    order,
                    max_fanout,
                    h + 1,
                    upsert(s, key@, value@),
                ) && id@ != zero_id() by {
                    lemma_clash_free_subset(p0, p1);
                    lemma_tree_at(p0, root@, order, max_fanout);
                    assert(p1.contains(tree_bytes(l, order)));
                    assert(holds(p1, id@, l, order, max_fanout, None, None));
                }
            }
            id
        },
        Some((pkey, right)) => {
            let mut seps: Vec<Vec<u8>> = Vec::new();
            let mut kids: Vec<ChunkId> = Vec::new();
            let ghost sep = pkey@;
            seps.push(pkey);
            kids.push(id);
            kids.push(right);
            let ghost trees = seq![l, rt];
            let ghost top = Tree::Internal { seps: seq![sep], kids: trees };
            assert(key_views(seps@) =~= seq![sep]);
            assert(id_views(kids@) =~= seq![id@, right@]);
            let ghost between = *provider;
            let new_root = put_branch(provider, &seps, &kids, 0, 1, order, Ghost(trees));
            let ghost p2 = provider.payloads();
            proof {
                if plain {
                    let p = inserted(t, key@, value@, order as nat);
                    assert(p.trees =~= trees && p.seps =~= seq![sep]);
                    assert(id_views(kids@) =~= tree_ids(trees, order));
                    assert(seq![sep].subrange(0, 1) =~= seq![sep]);
                    assert(trees.subrange(0, 2) =~= trees);
                    lemma_added_then(
                        old(provider),
                        &between,
                        provider,
                        insert_puts(t, key@, value@, order),
                        seq![tree_bytes(top, order)],
                    );
                    assert(insert_puts(t, key@, value@, order) + seq![tree_bytes(top, order)]
                        =~= insert_root_puts(t, key@, value@, order));
                }
                assert forall|h: nat, s: Seq<(Seq<u8>, Seq<u8>)>|
                    1 <= order <= max_fanout && old(provider).faithful()
                        && clash_free(p2) && #[trigger] lists(
                        p0,
                        root@,
                        order,
                        max_fanout,
                        h,
                        s,
                    ) implies lists(
                    p2,
                    new_root@,
                    order,
                    max_fanout,
                    h + 1,
                    upsert(s, key@, value@),
                ) && new_root@ != zero_id() by {
                    lemma_clash_free_subset(p0, p2);
                    lemma_clash_free_subset(p1, p2);
                    lemma_tree_at(p0, root@, order, max_fanout);
                    lemma_join(p1, order, max_fanout, id@, sep, right@, l, rt, h);
                    assert(seq![sep].subrange(0, 1) =~= seq![sep]);
                    assert(trees.subrange(0, 2) =~= trees);
                    assert(p2.contains(tree_bytes(top, order)));
                    assert(holds(p2, new_root@, top, order, max_fanout, None, None));
                }
            }
            new_root
        },
    };
    Ok(id)
}

pub(crate) proof fn lemma_clash_free_subset(p: Set<Seq<u8>>, q: Set<Seq<u8>>)
    requires
        clash_free(q),
        p.subset_of(q),
    ensures
        clash_free(p),
{
    assert forall|a: Seq<u8>, b: Seq<u8>|
        #![trigger p.contains(a), p.contains(b)]
        p.contains(a) && p.contains(b) && digest(a) == digest(b) implies a == b by {
        assert(q.contains(a) && q.contains(b));
    }
    assert forall|a: Seq<u8>| #[trigger] p.contains(a) implies digest(a) != zero_id() by {
        assert(q.contains(a));
    }
}

/// Two halves under a new root.
pub(crate) proof fn lemma_join(
    payloads: Set<Seq<u8>>,
    order: u16,
    max_fanout: u32,
    id: Seq<u8>,
    sep: Seq<u8>,
    right: Seq<u8>,
    l: Tree,
    r: Tree,
    h: nat,
)
    requires
        built(
            payloads,
            order,
            None,
            None,
            flat(l) + flat(r),
            h,
            id,
            Some((sep, right)),
            l,
            r,
        ),
        sized(l, max_fanout),
        sized(r, max_fanout),
        sep.len() <= u16::MAX,
        max_fanout >= 1,
    ensures
        ({
            let top = Tree::Internal { seps: seq![sep], kids: seq![l, r] };
            &&& matched(payloads, seq![id, right], seq![l, r], order)
            &&& ordered(top, None, None)
            &&& sized(top, max_fanout)
            &&& height(top) <= h + 1
            &&& flat(top) == flat(l) + flat(r)
        }),
{
    let seps = seq![sep];
    let kids = seq![l, r];
    let top = Tree::Internal { seps, kids };
    assert forall|i: int| 0 <= i < kids.len() implies ordered(
        #[trigger] kids[i],
        kid_lo(seps, None, i),
        kid_hi(seps, None, i),
    ) by {
        assert(i == 0 || i == 1);
    }
    assert forall|i: int| 0 <= i < kids.len() implies sized(#[trigger] kids[i], max_fanout)
        && height(kids[i]) <= h && seq![id, right][i] == tree_id(kids[i], order) && stored(
        payloads,
        kids[i],
        order,
    ) by {
        assert(i == 0 || i == 1);
    }
    lemma_height_bound(seps, kids, h);
    lemma_flat(seps, kids);
    let fs = flats(kids);
    assert(fs =~= seq![flat(l)] + seq![flat(r)]);
    lemma_concat_split(seq![flat(l)], seq![flat(r)]);
    lemma_concat_one(flat(l));
    lemma_concat_one(flat(r));
}

/// The child ids after child `c` was rewritten.
pub open spec fn rewritten_ids(
    ids: Seq<Seq<u8>>,
    c: int,
    id: Seq<u8>,
    promote: Option<(Seq<u8>, Seq<u8>)>,
) -> Seq<Seq<u8>> {
    match promote {
        None => ids.update(c, id),
        Some((_, right)) => ids.update(c, id).insert(c + 1, right),
    }
}

/// An internal node with one child rewritten is ready to be written itself.
proof fn lemma_rewritten(
    p0: Set<Seq<u8>>,
    p1: Set<Seq<u8>>,
    order: u16,
    max_fanout: u32,
    t: Tree,
    lo: Option<Seq<u8>>,
    hi: Option<Seq<u8>>,
    c: int,
    want: Seq<(Seq<u8>, Seq<u8>)>,
    id: Seq<u8>,
    promote: Option<(Seq<u8>, Seq<u8>)>,
    l: Tree,
    r: Tree,
)
    requires
        t is Internal,
        holds(p0, tree_id(t, order), t, order, max_fanout, lo, hi),
        p0.subset_of(p1),
        0 <= c < t->kids.len(),
        built(
            p1,
            order,
            kid_lo(t->seps, lo, c),
            kid_hi(t->seps, hi, c),
            want,
            height(t->kids[c]),
            id,
            promote,
            l,
            r,
        ),
        built_sized(promote, l, r, max_fanout),
    ensures
        ({
            let trees = new_kids(t->kids, c, promote, l, r);
            let seps = new_seps(t->seps, c, promote);
            let ids = rewritten_ids(tree_ids(t->kids, order), c, id, promote);
            &&& matched(p1, ids, trees, order)
            &&& ordered((Tree::Internal { seps, kids: trees }), lo, hi)
            &&& concat(flats(trees)) == concat(flats(t->kids).take(c)) + want + concat(
                flats(t->kids).skip(c + 1),
            )
            &&& forall|i: int|
                0 <= i < trees.len() ==> height(#[trigger] trees[i]) <= height(t) - 1 && sized(
                    trees[i],
                    max_fanout,
                )
            &&& trees.len() == seps.len() + 1
            &&& trees.len() <= t->kids.len() + 1
        }),
{
    let tk = t->kids;
    let trees = new_kids(tk, c, promote, l, r);
    let ids0 = tree_ids(tk, order);
    let ids = rewritten_ids(ids0, c, id, promote);
    assert(Tree::Internal { seps: t->seps, kids: tk } == t);
    lemma_replace_kid(
        p1,
        order,
        t->seps,
        tk,
        lo,
        hi,
        c,
        want,
        height(tk[c]),
        id,
        promote,
        l,
        r,
    );
    lemma_height_kids(t->seps, tk);
    assert forall|i: int| 0 <= i < trees.len() implies ids[i] == tree_id(#[trigger] trees[i], order)
        && stored(p1, trees[i], order) && height(trees[i]) <= height(t) - 1 && sized(
        trees[i],
        max_fanout,
    ) && coded(trees[i]) by {
        if i < c {
            assert(trees[i] == tk[i] && ids[i] == ids0[i]);
            lemma_sized_coded(tk[i], max_fanout);
            lemma_stored_mono(p0, p1, tk[i], order);
        } else if i == c {
            assert(trees[i] == l && ids[i] == id);
        } else if promote is Some && i == c + 1 {
            assert(trees[i] == r);
        } else {
            let j = if promote is None { i } else { i - 1 };
            assert(trees[i] == tk[j] && ids[i] == ids0[j]);
            lemma_sized_coded(tk[j], max_fanout);
            lemma_stored_mono(p0, p1, tk[j], order);
        }
    }
}

/// Returns (new node id for the caller's slot, optional promotion), and the
/// trees they stand for. A node whose content changed gets a new content id.
#[verifier::rlimit(80)]
#[verifier::spinoff_prover]
fn insert_rec<P: ObjectProvider>(
    node_id: ChunkId,
    key: &[u8],
    value: &[u8],
    order: u16,
    max_fanout: u32,
    provider: &mut P,
    depth: u32,
    Ghost(t): Ghost<Tree>,
    Ghost(lo): Ghost<Option<Seq<u8>>>,
    Ghost(hi): Ghost<Option<Seq<u8>>>,
) -> (out: Result<(ChunkId, Promotion, Ghost<(Tree, Tree)>), BTreeError>)
    requires
        depth <= 129,
        key@.len() <= u16::MAX,
        value@.len() <= u32::MAX,
    ensures
        grown(old(provider), final(provider)),
        out matches Ok(o) ==> promotion_encodable(o.1),
        1 <= order <= max_fanout && old(provider).faithful() && clash_free(
            final(provider).payloads(),
        ) && holds(old(provider).payloads(), node_id@, t, order, max_fanout, lo, hi) && covers(
            lo,
            hi,
            key@,
        ) ==> match out {
            Ok(o) => built(
                final(provider).payloads(),
                order,
                lo,
                hi,
                upsert(flat(t), key@, value@),
                height(t),
                o.0@,
                promotion(o.1),
                o.2@.0,
                o.2@.1,
            ) && built_sized(promotion(o.1), o.2@.0, o.2@.1, max_fanout),
            Err(_) => old(provider).may_fail() || height(t) + depth > max_height(),
        },
        out is Err ==> *final(provider) == *old(provider),
        out is Ok && 1 <= order <= max_fanout && old(provider).faithful() && clash_free(
            old(provider).payloads(),
        ) && holds(old(provider).payloads(), node_id@, t, order, max_fanout, lo, hi) ==> {
            let o = out->Ok_0;
            &&& made(promotion(o.1), o.2@.0, o.2@.1) == inserted(t, key@, value@, order as nat)
            &&& made_ids(o.0@, promotion(o.1), o.2@.0, o.2@.1, order)
            &&& added(old(provider), final(provider), insert_puts(t, key@, value@, order))
        },
    decreases 129 - depth,
{
    let ghost p0 = provider.payloads();
    let ghost fit = 1 <= order <= max_fanout && provider.faithful() && holds(
        p0,
        node_id@,
        t,
        order,
        max_fanout,
        lo,
        hi,
    ) && covers(lo, hi, key@);
    let ghost plain = 1 <= order <= max_fanout && provider.faithful() && clash_free(p0) && holds(
        p0,
        node_id@,
        t,
        order,
        max_fanout,
        lo,
        hi,
    );
    if depth > 128 {
        return Err(BTreeError::Invariant("tree depth exceeded".to_string()));
    }
    proof {
        if fit || plain {
            lemma_ordered_keyed(t, lo, hi);
        }
    }
    let node = match fetch(node_id, order, max_fanout, provider, Ghost(t)) {
        Ok(n) => n,
        Err(e) => return Err(e),
    };
    match node {
        Node::Leaf { entries } => {
            let ghost es = pairs(entries@);
            let mut entries = entries;
            let (found, at) = find_entry(&entries, key);
            let entry = Entry { key: copy_bytes(key), value: copy_bytes(value) };
            if found {
                entries.set(at, entry);
                assert(pairs(entries@) =~= upsert(es, key@, value@));
            } else {
                entries.insert(at, entry);
                assert(pairs(entries@) =~= upsert(es, key@, value@));
            }
            let ghost want = upsert(es, key@, value@);
            proof {
                assert forall|i: int| 0 <= i < want.len() implies (#[trigger] want[i]).0.len()
                    <= u16::MAX && want[i].1.len() <= u32::MAX by {
                    if i != at {
                        let j = if found || i < at { i } else { i - 1 };
                        assert(want[i] == es[j]);
                    }
                }
                lemma_upsert_sorted(es, key@, value@);
                if fit && es == flat(t) {
                    lemma_ordered_flat(t, lo, hi);
                    lemma_upsert_within(es, key@, value@, lo, hi);
                }
            }
            let out = finish_leaf(
                provider,
                entries,
                order,
                Ghost(max_fanout),
                Ghost(lo),
                Ghost(hi),
            );
            proof {
                if fit && clash_free(provider.payloads()) {
                    lemma_clash_free_subset(p0, provider.payloads());
                }
            }
            Ok(out)
        },
        Node::Internal { first_child, entries } => {
            let (seps, kids) = branch_of(first_child, &entries);
            let slot: usize = find_slot(&seps, key);
            let ghost c = slot as int;
            let ghost tk = t->kids;
            let ghost ts = t->seps;
            proof {
                if plain {
                    lemma_branch(key_views(seps@), id_views(kids@), t, order);
                    lemma_slot(ts, key@);
                    lemma_kid_holds(p0, t, order, max_fanout, lo, hi, c);
                    assert(id_views(kids@)[c] == kids@[c]@);
                }
                if fit && clash_free(p0) {
                    lemma_branch(key_views(seps@), id_views(kids@), t, order);
                    lemma_route(ts, tk, lo, hi, key@);
                    lemma_kid_holds(p0, t, order, max_fanout, lo, hi, c);
                    assert(id_views(kids@)[c] == kids@[c]@);
                }
            }
            let (child, promote, child_ghost) = match insert_rec(
                kids[slot],
                key,
                value,
                order,
                max_fanout,
                provider,
                depth + 1,
                Ghost(tk[c]),
                Ghost(kid_lo(ts, lo, c)),
                Ghost(kid_hi(ts, hi, c)),
            ) {
                Ok(v) => v,
                Err(e) => {
                    proof {
                        if clash_free(provider.payloads()) {
                            lemma_clash_free_subset(p0, provider.payloads());
                        }
                    }
                    return Err(e);
                },
            };
            let ghost p1 = provider.payloads();
            let ghost (l, r) = child_ghost@;
            let ghost pv = promotion(promote);
            let mut seps = seps;
            let mut kids = kids;
            let ghost seps0 = key_views(seps@);
            let ghost ids0 = id_views(kids@);
            let ghost trees = new_kids(tk, c, pv, l, r);
            kids.set(slot, child);
            match promote {
                Some((pkey, right)) => {
                    let ghost sep = pkey@;
                    seps.insert(slot, pkey);
                    kids.insert(slot + 1, right);
                    proof {
                        assert(key_views(seps@) =~= seps0.insert(c, sep));
                        assert(id_views(kids@) =~= ids0.update(c, child@).insert(c + 1, right@));
                        let ks = key_views(seps@);
                        assert forall|i: int| 0 <= i < ks.len() implies (#[trigger] ks[i]).len()
                            <= u16::MAX by {
                            if i != c {
                                assert(ks[i] == seps0[if i < c { i } else { i - 1 }]);
                            }
                        }
                    }
                },
                None => {
                    assert(id_views(kids@) =~= ids0.update(c, child@));
                },
            }
            let ghost new_ids = id_views(kids@);
            let ghost between = *provider;
            let ghost q = rewritten(ts, tk, c, made(pv, l, r));
            proof {
                if plain {
                    lemma_replaced(ts, tk, c, pv, l, r, order, child@);
                    assert(new_ids == rewritten_ids(ids0, c, child@, pv));
                    assert(key_views(seps@) == new_seps(ts, c, pv));
                }
            }
            let out = finish_branch(
                provider,
                seps,
                kids,
                order,
                Ghost(max_fanout),
                Ghost(trees),
                Ghost(lo),
                Ghost(hi),
                Ghost((height(t) - 1) as nat),
            );
            proof {
                if plain {
                    lemma_added_then(
                        old(provider),
                        &between,
                        provider,
                        insert_puts(tk[c], key@, value@, order),
                        payloads_of(split_branch(q, order as nat, q.seps.len()).trees, order),
                    );
                    assert(Tree::Internal { seps: ts, kids: tk } == t);
                }
                if fit && clash_free(provider.payloads()) {
                    let q = provider.payloads();
                    lemma_clash_free_subset(p0, q);
                    lemma_clash_free_subset(p1, q);
                    lemma_upsert_context(
                        concat(flats(tk).take(c)),
                        flat(tk[c]),
                        concat(flats(tk).skip(c + 1)),
                        key@,
                        value@,
                    );
                    lemma_rewritten(
                        p0,
                        p1,
                        order,
                        max_fanout,
                        t,
                        lo,
                        hi,
                        c,
                        upsert(flat(tk[c]), key@, value@),
                        child@,
                        pv,
                        l,
                        r,
                    );
                    assert(new_ids == rewritten_ids(ids0, c, child@, pv));
                }
            }
            Ok(out)
        },
    }
}

// ---------------------------------------------------------------------------
// Remove
// ---------------------------------------------------------------------------

/// Remove a key; returns the new root id (equal to `root` if unchanged). An
/// empty tree is the zero id.
pub fn remove<P: ObjectProvider>(
    root: ChunkId,
    key: &[u8],
    order: u16,
    max_fanout: u32,
    provider: &mut P,
) -> (r: Result<ChunkId, BTreeError>)
    ensures
        grown(old(provider), final(provider)),
        root@ == zero_id() ==> r is Ok && r->Ok_0@ == zero_id() && final(provider).payloads()
            == old(provider).payloads(),
        forall|h: nat, s: Seq<(Seq<u8>, Seq<u8>)>|
            old(provider).faithful() && clash_free(
                final(provider).payloads(),
            ) && #[trigger] lists(old(provider).payloads(), root@, order, max_fanout, h, s)
                ==> match r {
                Ok(id) => {
                    &&& lists(
                        final(provider).payloads(),
                        id@,
                        order,
                        max_fanout,
                        h,
                        erase(s, key@),
                    )
                    &&& !has_key(s, key@) ==> id@ == root@ && final(provider).payloads() == old(provider).payloads()
                },
                Err(_) => old(provider).may_fail() || h > max_height(),
            },
        r is Err ==> *final(provider) == *old(provider),
        forall|h: nat, s: Seq<(Seq<u8>, Seq<u8>)>|
            r is Ok && root@ != zero_id() && old(provider).faithful() && clash_free(
                final(provider).payloads(),
            ) && #[trigger] lists(old(provider).payloads(), root@, order, max_fanout, h, s) ==> {
                let t = tree_at(old(provider).payloads(), root@, order, max_fanout);
                &&& r->Ok_0@ == (match removed(t, key@) {
                    Some(w) => tree_id(w, order),
                    None => zero_id(),
                })
                &&& added(old(provider), final(provider), remove_puts(t, key@, order))
                &&& stocked(t) ==> (r->Ok_0@ == zero_id() <==> erase(s, key@).len() == 0)
            },
{
    if root.is_zero() {
        return Ok(ChunkId::zero());
    }
    let ghost p0 = provider.payloads();
    let ghost t = tree_at(p0, root@, order, max_fanout);
    let out = remove_rec(root, key, order, max_fanout, provider, 0, Ghost(t), Ghost(None), Ghost(None));
    let ghost p1 = provider.payloads();
    proof {
        if clash_free(p1) {
            lemma_clash_free_subset(p0, p1);
            lemma_tree_at(p0, root@, order, max_fanout);
        }
    }
    match out {
        Err(e) => Err(e),
        Ok(((Some(id), _), w)) => {
            proof {
                assert forall|h: nat, s: Seq<(Seq<u8>, Seq<u8>)>|
                    old(provider).faithful() && clash_free(p1)
                        && #[trigger] lists(p0, root@, order, max_fanout, h, s) implies lists(
                    p1,
                    id@,
                    order,
                    max_fanout,
                    h,
                    erase(s, key@),
                ) by {
                    assert(holds(p1, id@, w@, order, max_fanout, None, None));
                    assert(p1.contains(tree_bytes(w@, order)));
                }
                if stocked(t) {
                    remove_keeps_stocked(t, key@);
                    if stocked(w@) {
                        stocked_lists_something(w@);
                    }
                }
            }
            Ok(id)
        },
        Ok(((None, _), _)) => Ok(ChunkId::zero()),
    }
}

/// Dropping a child, and the separator beside it, keeps the search order.
proof fn lemma_drop_kid(
    seps: Seq<Seq<u8>>,
    kids: Seq<Tree>,
    lo: Option<Seq<u8>>,
    hi: Option<Seq<u8>>,
    c: int,
)
    requires
        ordered((Tree::Internal { seps, kids }), lo, hi),
        0 <= c < kids.len(),
        seps.len() > 0,
    ensures
        ordered(
            (Tree::Internal {
                seps: seps.remove(if c > 0 { c - 1 } else { 0 }),
                kids: kids.remove(c),
            }),
            lo,
            hi,
        ),
        concat(flats(kids.remove(c))) == concat(flats(kids).take(c)) + concat(
            flats(kids).skip(c + 1),
        ),
{
    lemma_lex_order();
    let d = if c > 0 { c - 1 } else { 0 };
    let s2 = seps.remove(d);
    let k2 = kids.remove(c);
    assert forall|i: int, j: int| #![trigger s2[i], s2[j]] 0 <= i < j < s2.len() implies lex_lt(
        s2[i],
        s2[j],
    ) by {
        assert(s2[i] == seps[if i < d { i } else { i + 1 }]);
        assert(s2[j] == seps[if j < d { j } else { j + 1 }]);
    }
    assert forall|i: int| 0 <= i < s2.len() implies inside(lo, hi, #[trigger] s2[i]) by {
        assert(s2[i] == seps[if i < d { i } else { i + 1 }]);
    }
    assert forall|i: int| 0 <= i < k2.len() implies ordered(
        #[trigger] k2[i],
        kid_lo(s2, lo, i),
        kid_hi(s2, hi, i),
    ) by {
        let j = if i < c { i } else { i + 1 };
        assert(k2[i] == kids[j]);
        assert(ordered(kids[j], kid_lo(seps, lo, j), kid_hi(seps, hi, j)));
        if j > 0 {
            assert(inside(lo, hi, seps[j - 1]));
        }
        if j < seps.len() {
            assert(inside(lo, hi, seps[j]));
        }
        if i < c && i + 1 < seps.len() {
            assert(lex_lt(seps[i], seps[i + 1]));
        }
        lemma_ordered_widen(
            kids[j],
            kid_lo(seps, lo, j),
            kid_hi(seps, hi, j),
            kid_lo(s2, lo, i),
            kid_hi(s2, hi, i),
        );
    }
    let fs = flats(kids);
    assert(flats(k2) =~= fs.take(c) + fs.skip(c + 1));
    lemma_concat_split(fs.take(c), fs.skip(c + 1));
}

/// Returns (new node id or `None` if the node collapsed to empty, removed
/// value), and the tree at the new id. An internal node whose last child
/// collapsed collapses with it.
#[verifier::rlimit(100)]
#[verifier::spinoff_prover]
fn remove_rec<P: ObjectProvider>(
    node_id: ChunkId,
    key: &[u8],
    order: u16,
    max_fanout: u32,
    provider: &mut P,
    depth: u32,
    Ghost(t): Ghost<Tree>,
    Ghost(lo): Ghost<Option<Seq<u8>>>,
    Ghost(hi): Ghost<Option<Seq<u8>>>,
) -> (out: Result<(RemoveResult, Ghost<Tree>), BTreeError>)
    requires
        depth <= 129,
    ensures
        grown(old(provider), final(provider)),
        old(provider).faithful() && clash_free(final(provider).payloads()) && holds(
            old(provider).payloads(),
            node_id@,
            t,
            order,
            max_fanout,
            lo,
            hi,
        ) ==> match out {
            Ok(o) => removed_as(
                old(provider).payloads(),
                final(provider).payloads(),
                node_id@,
                t,
                key@,
                order,
                max_fanout,
                lo,
                hi,
                o.0,
                o.1@,
            ),
            Err(_) => old(provider).may_fail() || height(t) + depth > max_height(),
        },
        out is Err ==> *final(provider) == *old(provider),
        out is Ok && old(provider).faithful() && clash_free(final(provider).payloads()) && holds(
            old(provider).payloads(),
            node_id@,
            t,
            order,
            max_fanout,
            lo,
            hi,
        ) ==> {
            &&& removed(t, key@) == (match out->Ok_0.0.0 {
                Some(_) => Some(out->Ok_0.1@),
                None => None,
            })
            &&& added(old(provider), final(provider), remove_puts(t, key@, order))
        },
    decreases 129 - depth,
{
    let ghost p0 = provider.payloads();
    let ghost fit = provider.faithful() && holds(p0, node_id@, t, order, max_fanout, lo, hi);
    if depth > 128 {
        return Err(BTreeError::Invariant("tree depth exceeded".to_string()));
    }
    proof {
        if fit {
            lemma_ordered_keyed(t, lo, hi);
            lemma_ordered_flat(t, lo, hi);
        }
        lemma_added_none(provider);
    }
    let node = match fetch(node_id, order, max_fanout, provider, Ghost(t)) {
        Ok(n) => n,
        Err(e) => return Err(e),
    };
    match node {
        Node::Leaf { entries } => {
            let ghost es = pairs(entries@);
            let mut entries = entries;
            let (found, at) = find_entry(&entries, key);
            if !found {
                return Ok(((Some(node_id), None), Ghost(t)));
            }
            assert(es[at as int] == (entries@[at as int].key@, entries@[at as int].value@));
            let gone = entries.remove(at);
            let ghost rest = es.remove(at as int);
            proof {
                assert(pairs(entries@) =~= rest);
                assert(rest == erase(es, key@));
            }
            if entries.len() == 0 {
                return Ok(((None, Some(gone.value)), Ghost(t)));
            }
            proof {
                lemma_erase_sorted(es, key@);
                assert forall|i: int| 0 <= i < rest.len() implies (#[trigger] rest[i]).0.len()
                    <= u16::MAX && rest[i].1.len() <= u32::MAX && rest[i] == es[if i < at {
                    i
                } else {
                    i + 1
                }] by {
                }
            }
            let id = put_leaf(provider, entries, order);
            let ghost w = Tree::Leaf { entries: rest };
            proof {
                if fit && clash_free(provider.payloads()) {
                    lemma_clash_free_subset(p0, provider.payloads());
                    assert(within(rest, lo, hi)) by {
                        assert forall|i: int| 0 <= i < rest.len() implies covers(
                            lo,
                            hi,
                            (#[trigger] rest[i]).0,
                        ) by {
                            assert(rest[i] == es[if i < at { i } else { i + 1 }]);
                        }
                    }
                }
            }
            Ok(((Some(id), Some(gone.value)), Ghost(w)))
        },
        Node::Internal { first_child, entries } => {
            let (seps, kids) = branch_of(first_child, &entries);
            let slot: usize = find_slot(&seps, key);
            let ghost c = slot as int;
            let ghost tk = t->kids;
            let ghost ts = t->seps;
            let current = kids[slot];
            proof {
                if fit && clash_free(p0) {
                    assert(Tree::Internal { seps: ts, kids: tk } == t);
                    lemma_branch(key_views(seps@), id_views(kids@), t, order);
                    lemma_route(ts, tk, lo, hi, key@);
                    lemma_kid_holds(p0, t, order, max_fanout, lo, hi, c);
                    assert(id_views(kids@)[c] == kids@[c]@);
                }
            }
            let ((child, removed), child_ghost) = match remove_rec(
                current,
                key,
                order,
                max_fanout,
                provider,
                depth + 1,
                Ghost(tk[c]),
                Ghost(kid_lo(ts, lo, c)),
                Ghost(kid_hi(ts, hi, c)),
            ) {
                Ok(v) => v,
                Err(e) => {
                    proof {
                        if clash_free(provider.payloads()) {
                            lemma_clash_free_subset(p0, provider.payloads());
                        }
                    }
                    return Err(e);
                },
            };
            let ghost p1 = provider.payloads();
            let ghost between = *provider;
            let ghost below = remove_puts(tk[c], key@, order);
            let ghost w1 = child_ghost@;
            let ghost a = concat(flats(tk).take(c));
            let ghost z = concat(flats(tk).skip(c + 1));
            proof {
                if fit && clash_free(p1) {
                    lemma_clash_free_subset(p0, p1);
                    lemma_rank_context(a, flat(tk[c]), z, key@);
                    lemma_erase_context(a, flat(tk[c]), z, key@);
                    lemma_ordered_flat(tk[c], kid_lo(ts, lo, c), kid_hi(ts, hi, c));
                    lemma_rank(flat(tk[c]), key@);
                }
            }
            match child {
                None => {
                    let mut seps = seps;
                    let mut kids = kids;
                    let ghost ks = key_views(seps@);
                    let ghost ids = id_views(kids@);
                    kids.remove(slot);
                    assert(id_views(kids@) =~= ids.remove(c));
                    if kids.len() == 0 {
                        proof {
                            if fit && clash_free(p1) {
                                assert(flats(tk).take(c) =~= Seq::empty());
                                assert(flats(tk).skip(c + 1) =~= Seq::empty());
                                assert(a + Seq::<(Seq<u8>, Seq<u8>)>::empty() + z =~= Seq::empty());
                            }
                        }
                        return Ok(((None, removed), Ghost(t)));
                    }
                    let dropped: usize = if slot > 0 {
                        slot - 1
                    } else {
                        0
                    };
                    seps.remove(dropped);
                    assert(key_views(seps@) =~= ks.remove(dropped as int));
                    let ghost trees = tk.remove(c);
                    proof {
                        if fit && clash_free(p1) {
                            lemma_drop_kid(ts, tk, lo, hi, c);
                            assert(a + Seq::<(Seq<u8>, Seq<u8>)>::empty() + z =~= a + z);
                            assert(erase(flat(tk[c]), key@) =~= Seq::empty());
                        }
                    }
                    if kids.len() == 1 {
                        let only = kids[0];
                        let ghost w = trees[0];
                        proof {
                            if fit && clash_free(p1) {
                                lemma_only_kid(p0, p1, t, order, max_fanout, lo, hi, c);
                                assert(id_views(kids@)[0] == kids@[0]@);
                            }
                        }
                        return Ok(((Some(only), removed), Ghost(w)));
                    }
                    proof {
                        let k2 = key_views(seps@);
                        assert forall|i: int| 0 <= i < k2.len() implies (#[trigger] k2[i]).len()
                            <= u16::MAX by {
                            assert(k2[i] == ks[if i < dropped { i } else { i + 1 }]);
                        }
                    }
                    let last: usize = kids.len() - 1;
                    let id = put_branch(provider, &seps, &kids, 0, last, order, Ghost(trees));
                    let ghost w = Tree::Internal { seps: key_views(seps@), kids: trees };
                    proof {
                        if fit && clash_free(provider.payloads()) {
                            lemma_clash_free_subset(p1, provider.payloads());
                            lemma_clash_free_subset(p0, p1);
                            lemma_dropped(p0, p1, t, order, max_fanout, lo, hi, c);
                            assert(key_views(seps@).subrange(0, last as int) =~= key_views(seps@));
                            assert(trees.subrange(0, last + 1) =~= trees);
                            assert(id_views(kids@) =~= tree_ids(trees, order));
                            lemma_added_then(
                                old(provider),
                                &between,
                                provider,
                                below,
                                seq![tree_bytes(w, order)],
                            );
                            assert(below + seq![tree_bytes(w, order)] =~= below.push(
                                tree_bytes(w, order),
                            ));
                        }
                    }
                    Ok(((Some(id), removed), Ghost(w)))
                },
                Some(new_child) => {
                    if new_child == current {
                        proof {
                            if fit && clash_free(p1) {
                                lemma_sized_coded(w1, max_fanout);
                                lemma_sized_coded(tk[c], max_fanout);
                                lemma_stored_mono(p0, p1, tk[c], order);
                                lemma_tree_unique(p1, w1, tk[c], order);
                                assert(!has_key(flat(tk[c]), key@));
                            }
                        }
                        return Ok(((Some(node_id), removed), Ghost(t)));
                    }
                    let mut kids = kids;
                    let ghost ids = id_views(kids@);
                    kids.set(slot, new_child);
                    assert(id_views(kids@) =~= ids.update(c, new_child@));
                    let ghost trees = tk.update(c, w1);
                    let last: usize = kids.len() - 1;
                    proof {
                        if fit && clash_free(p1) {
                            lemma_sized_coded(w1, max_fanout);
                            lemma_rewritten(
                                p0,
                                p1,
                                order,
                                max_fanout,
                                t,
                                lo,
                                hi,
                                c,
                                erase(flat(tk[c]), key@),
                                new_child@,
                                None,
                                w1,
                                w1,
                            );
                            assert(new_kids(tk, c, None, w1, w1) == trees);
                        }
                    }
                    let id = put_branch(provider, &seps, &kids, 0, last, order, Ghost(trees));
                    let ghost w = Tree::Internal { seps: key_views(seps@), kids: trees };
                    proof {
                        if fit && clash_free(provider.payloads()) {
                            lemma_clash_free_subset(p1, provider.payloads());
                            lemma_clash_free_subset(p0, p1);
                            assert(key_views(seps@).subrange(0, last as int) =~= key_views(seps@));
                            assert(trees.subrange(0, last + 1) =~= trees);
                            assert(id_views(kids@) =~= tree_ids(trees, order));
                            lemma_added_then(
                                old(provider),
                                &between,
                                provider,
                                below,
                                seq![tree_bytes(w, order)],
                            );
                            assert(below + seq![tree_bytes(w, order)] =~= below.push(
                                tree_bytes(w, order),
                            ));
                            lemma_flat(ts, trees);
                            lemma_height_bound(ts, trees, (height(t) - 1) as nat);
                            assert(has_key(flat(tk[c]), key@));
                        }
                    }
                    Ok(((Some(id), removed), Ghost(w)))
                },
            }
        },
    }
}

/// Replacing a child by what it was rewritten to, as parts and as ids.
proof fn lemma_replaced(
    seps: Seq<Seq<u8>>,
    kids: Seq<Tree>,
    c: int,
    promote: Option<(Seq<u8>, Seq<u8>)>,
    l: Tree,
    r: Tree,
    order: u16,
    id: Seq<u8>,
)
    requires
        kids.len() == seps.len() + 1,
        0 <= c < kids.len(),
        made_ids(id, promote, l, r, order),
    ensures
        rewritten(seps, kids, c, made(promote, l, r)) == (Parts {
            seps: new_seps(seps, c, promote),
            trees: new_kids(kids, c, promote, l, r),
        }),
        tree_ids(new_kids(kids, c, promote, l, r), order) == rewritten_ids(
            tree_ids(kids, order),
            c,
            id,
            promote,
        ),
{
    let q = rewritten(seps, kids, c, made(promote, l, r));
    let k2 = new_kids(kids, c, promote, l, r);
    assert(q.seps =~= new_seps(seps, c, promote));
    assert(q.trees =~= k2);
    assert(tree_ids(k2, order) =~= rewritten_ids(tree_ids(kids, order), c, id, promote));
}

/// What removing `key` from the tree `t` at `node_id` leaves.
pub open spec fn removed_as(
    p0: Set<Seq<u8>>,
    p1: Set<Seq<u8>>,
    node_id: Seq<u8>,
    t: Tree,
    key: Seq<u8>,
    order: u16,
    max_fanout: u32,
    lo: Option<Seq<u8>>,
    hi: Option<Seq<u8>>,
    res: RemoveResult,
    w: Tree,
) -> bool {
    &&& opt_bytes(res.1) == lookup(flat(t), key)
    &&& !has_key(flat(t), key) ==> p1 == p0 && res.0 is Some && res.0->0@ == node_id
    &&& match res.0 {
        Some(id) => {
            &&& holds(p1, id@, w, order, max_fanout, lo, hi)
            &&& flat(w) == erase(flat(t), key)
            &&& height(w) <= height(t)
        },
        None => erase(flat(t), key).len() == 0,
    }
}

proof fn lemma_dropped(
    p0: Set<Seq<u8>>,
    p1: Set<Seq<u8>>,
    t: Tree,
    order: u16,
    max_fanout: u32,
    lo: Option<Seq<u8>>,
    hi: Option<Seq<u8>>,
    c: int,
)
    requires
        t is Internal,
        holds(p0, tree_id(t, order), t, order, max_fanout, lo, hi),
        p0.subset_of(p1),
        0 <= c < t->kids.len(),
        t->seps.len() > 0,
    ensures
        ({
            let trees = t->kids.remove(c);
            let seps = t->seps.remove(if c > 0 { c - 1 } else { 0 });
            let w = Tree::Internal { seps, kids: trees };
            &&& matched(p1, tree_ids(t->kids, order).remove(c), trees, order)
            &&& sized(w, max_fanout)
            &&& height(w) <= height(t)
            &&& flat(w) == concat(flats(trees))
        }),
{
    let tk = t->kids;
    let trees = tk.remove(c);
    let d = if c > 0 { c - 1 } else { 0 };
    let seps = t->seps.remove(d);
    let ids0 = tree_ids(tk, order);
    let ids = ids0.remove(c);
    lemma_height_kids(t->seps, tk);
    assert(Tree::Internal { seps: t->seps, kids: tk } == t);
    assert forall|i: int| 0 <= i < trees.len() implies ids[i] == tree_id(#[trigger] trees[i], order)
        && stored(p1, trees[i], order) && height(trees[i]) <= height(t) - 1 && sized(
        trees[i],
        max_fanout,
    ) && coded(trees[i]) by {
        let j = if i < c { i } else { i + 1 };
        assert(trees[i] == tk[j] && ids[i] == ids0[j]);
        lemma_sized_coded(tk[j], max_fanout);
        lemma_stored_mono(p0, p1, tk[j], order);
    }
    assert forall|i: int| 0 <= i < seps.len() implies (#[trigger] seps[i]).len() <= u16::MAX by {
        assert(seps[i] == t->seps[if i < d { i } else { i + 1 }]);
    }
    lemma_height_bound(seps, trees, (height(t) - 1) as nat);
    lemma_flat(seps, trees);
}

/// Where one child is left, it stands for the whole node.
proof fn lemma_only_kid(
    p0: Set<Seq<u8>>,
    p1: Set<Seq<u8>>,
    t: Tree,
    order: u16,
    max_fanout: u32,
    lo: Option<Seq<u8>>,
    hi: Option<Seq<u8>>,
    c: int,
)
    requires
        t is Internal,
        holds(p0, tree_id(t, order), t, order, max_fanout, lo, hi),
        p0.subset_of(p1),
        0 <= c < t->kids.len(),
        t->kids.len() == 2,
    ensures
        ({
            let w = t->kids.remove(c)[0];
            &&& holds(
                p1,
                tree_ids(t->kids, order).remove(c)[0],
                w,
                order,
                max_fanout,
                lo,
                hi,
            )
            &&& height(w) <= height(t)
            &&& flat(w) == concat(flats(t->kids).take(c)) + concat(flats(t->kids).skip(c + 1))
        }),
{
    let w = t->kids.remove(c)[0];
    assert(Tree::Internal { seps: t->seps, kids: t->kids } == t);
    lemma_drop_kid(t->seps, t->kids, lo, hi, c);
    lemma_dropped(p0, p1, t, order, max_fanout, lo, hi, c);
    let trees = t->kids.remove(c);
    assert(flats(trees) =~= seq![flat(w)]);
    lemma_concat_one(flat(w));
    let s2 = t->seps.remove(if c > 0 { c - 1 } else { 0 });
    let u = Tree::Internal { seps: s2, kids: trees };
    assert(ordered(u, lo, hi));
    assert(ordered(trees[0], kid_lo(s2, lo, 0), kid_hi(s2, hi, 0)));
    lemma_height_kids(t->seps, t->kids);
    assert(w == t->kids[if c == 0 { 1 } else { 0 }]);
    assert(tree_ids(t->kids, order).remove(c)[0] == tree_id(trees[0], order));
}

} // verus!
