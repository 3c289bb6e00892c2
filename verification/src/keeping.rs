//! What a collection keeps: the namespace of the current root, the snapshots and theirs, and
//! the data of the files.

use vstd::prelude::*;

use crate::chunk::{digest, zero_id};
use crate::compact::{collected, compacted, kept_entries, lemma_object_indexed, named_trees,
    pins_of, replaces, replaces_by, survives, RebuiltIndex};
use crate::descriptor::{chunks_of, decoded, objects_of, Descriptor, Form};
use crate::extents::has_file;
use crate::fs::{data_root, fs_ok, ino_key, lemma_fs_grows, lemma_has_key, lemma_listing,
    lemma_lists_grows, lemma_ns_at, lemma_object, lemma_tree_grows, lemma_tree_sorted, listing, ns,
    object, row_ok, stored_inode, tree_ok, BTREE_ORDER};
use crate::gc::{chained, chunk_object, follows, ground, lemma_all_done, loaded,
    mark_holds_reachable, markable, marked, object_of_chunk, roots_of, snapshots_of, LiveMark};
use crate::index_edit::lemma_clash_free_subset;
use crate::inode::DataView;
use crate::io::IoBackend;
use crate::node::node_round_trip;
use crate::reach::{described, descriptor_places, descriptors_at, id_set, inode_places, leads,
    leaf_places, lemma_reach_step, mentions, node_places, out_of, reach_in, reachable, root_places,
    unless_zero, value_places, Ground, MarkKind, Place};
use crate::root::{root_bytes, root_ok, root_round_trip, RootView};
use crate::snapshot::parse_snapshot;
use crate::sorted::{concat, lookup, rank};
use crate::store::{digest_found, Store};
use crate::sum_laws::kept_chunks_are_listed;
use crate::tree::{clash_free, flat, flats, holds, kid_hi, kid_lo, lemma_flat, lemma_node_of,
    lemma_node_ok, lemma_ordered_keyed, lemma_tree_at, lists, node_of, ordered, stored, tree_at,
    tree_bytes, tree_id, tree_ids, Tree};

verus! {

/// Every object at a reached place is among `kept`.
spec fn keeps<F: Fn(&[u8]) -> Option<Descriptor>>(
    g: Ground<F>,
    from: Seq<Place>,
    kept: Set<Seq<u8>>,
) -> bool {
    forall|x: Seq<u8>, k: MarkKind|
        #![trigger g.objects.contains(x), reachable(g, from, (digest(x), k))]
        g.objects.contains(x) && reachable(g, from, (digest(x), k)) && k != MarkKind::Root
            ==> kept.contains(x)
}

/// A kind of tree.
spec fn tree_kind(k: MarkKind) -> bool {
    k != MarkKind::Object && k != MarkKind::Root && k != MarkKind::Inode
}

/// The root node of a reached tree leads to its children.
#[verifier::rlimit(40)]
#[verifier::spinoff_prover]
proof fn lemma_kid_reached<F: Fn(&[u8]) -> Option<Descriptor>>(
    g: Ground<F>,
    from: Seq<Place>,
    t: Tree,
    kind: MarkKind,
    lo: Option<Seq<u8>>,
    hi: Option<Seq<u8>>,
    i: int,
)
    requires
        clash_free(g.objects),
        holds(g.objects, tree_id(t, BTREE_ORDER), t, BTREE_ORDER, g.fanout, lo, hi),
        t is Internal,
        0 <= i < t->kids.len(),
        tree_kind(kind),
        reachable(g, from, (tree_id(t, BTREE_ORDER), kind)),
    ensures
        reachable(g, from, (tree_id(t->kids[i], BTREE_ORDER), kind)),
{
    let b = tree_bytes(t, BTREE_ORDER);
    let id = tree_id(t, BTREE_ORDER);
    let ids = tree_ids(t->kids, BTREE_ORDER);
    assert(g.objects.contains(b));
    lemma_object(g.objects, b);
    lemma_node_of(t, BTREE_ORDER);
    lemma_ordered_keyed(t, lo, hi);
    lemma_node_ok(t, BTREE_ORDER, g.fanout);
    node_round_trip(node_of(t, BTREE_ORDER), BTREE_ORDER, g.fanout);
    reveal(out_of);
    let v = node_of(t, BTREE_ORDER);
    let out = node_places(kind, v, g.decode)->0;
    assert(out_of(g.objects, g.fanout, g.decode, (id, kind)) == Some(out));
    let es = v->Internal_entries;
    assert(ids[i] == tree_id(t->kids[i], BTREE_ORDER));
    assert(out[i] == (ids[i], kind)) by {
        if i > 0 {
            assert(es[i - 1] == (t->seps[i - 1], ids[i]));
        }
    }
    assert(out.contains((ids[i], kind)));
    assert(leads(g, (id, kind), (ids[i], kind)));
    lemma_reach_step(g, from, (id, kind), (ids[i], kind));
}

/// The nodes of a reached tree are kept.
proof fn lemma_nodes_kept<F: Fn(&[u8]) -> Option<Descriptor>>(
    g: Ground<F>,
    from: Seq<Place>,
    kept: Set<Seq<u8>>,
    t: Tree,
    kind: MarkKind,
    lo: Option<Seq<u8>>,
    hi: Option<Seq<u8>>,
)
    requires
        clash_free(g.objects),
        keeps(g, from, kept),
        holds(g.objects, tree_id(t, BTREE_ORDER), t, BTREE_ORDER, g.fanout, lo, hi),
        tree_kind(kind),
        reachable(g, from, (tree_id(t, BTREE_ORDER), kind)),
    ensures
        stored(kept, t, BTREE_ORDER),
    decreases t,
{
    let b = tree_bytes(t, BTREE_ORDER);
    assert(g.objects.contains(b) && reachable(g, from, (digest(b), kind)));
    if t is Internal {
        let kids = t->kids;
        let seps = t->seps;
        assert forall|i: int| 0 <= i < kids.len() implies stored(
            kept,
            #[trigger] kids[i],
            BTREE_ORDER,
        ) by {
            lemma_kid_reached(g, from, t, kind, lo, hi, i);
            assert(ordered(kids[i], kid_lo(seps, lo, i), kid_hi(seps, hi, i)));
            lemma_nodes_kept(
                g,
                from,
                kept,
                kids[i],
                kind,
                kid_lo(seps, lo, i),
                kid_hi(seps, hi, i),
            );
        }
    }
}

/// A reached tree lists in what is kept what it listed.
proof fn lemma_tree_kept<F: Fn(&[u8]) -> Option<Descriptor>>(
    g: Ground<F>,
    from: Seq<Place>,
    kept: Set<Seq<u8>>,
    root: Seq<u8>,
    kind: MarkKind,
    h: nat,
)
    requires
        clash_free(g.objects),
        clash_free(kept),
        keeps(g, from, kept),
        tree_ok(g.objects, root, g.fanout, h),
        tree_kind(kind),
        root != zero_id() ==> reachable(g, from, (root, kind)),
    ensures
        tree_ok(kept, root, g.fanout, h),
        listing(kept, root, g.fanout) == listing(g.objects, root, g.fanout),
{
    let s = listing(g.objects, root, g.fanout);
    if root != zero_id() {
        let t = tree_at(g.objects, root, BTREE_ORDER, g.fanout);
        lemma_tree_at(g.objects, root, BTREE_ORDER, g.fanout);
        lemma_nodes_kept(g, from, kept, t, kind, None, None);
        assert(holds(kept, root, t, BTREE_ORDER, g.fanout, None, None));
    }
    assert(lists(kept, root, BTREE_ORDER, g.fanout, h, s));
    lemma_listing(kept, root, g.fanout, h, s);
}

/// What a leaf of the inode table leads to.
proof fn lemma_table_leaf<F: Fn(&[u8]) -> Option<Descriptor>>(
    entries: Seq<(Seq<u8>, Seq<u8>)>,
    decode: F,
    i: int,
)
    requires
        forall|j: int| 0 <= j < entries.len() ==> (#[trigger] entries[j]).1.len() == 32,
        0 <= i < entries.len(),
    ensures
        leaf_places(MarkKind::TreeInodeIndex, entries, decode) matches Some(s) && s.contains(
            (entries[i].1, MarkKind::Inode),
        ),
    decreases entries.len(),
{
    let p = entries.drop_last();
    let n = entries.len() - 1;
    assert(entries[n] == entries.last());
    let b = seq![(entries.last().1, MarkKind::Inode)];
    if p.len() > 0 {
        lemma_table_leaf(p, decode, if i < n { i } else { 0 });
    }
    let a = leaf_places(MarkKind::TreeInodeIndex, p, decode)->0;
    let s = a + b;
    if i < n {
        let x = (p[i].1, MarkKind::Inode);
        let j = choose|j: int| 0 <= j < a.len() && a[j] == x;
        assert(s[j] == x);
    } else {
        assert(s[a.len() as int] == (entries[i].1, MarkKind::Inode));
    }
}

#[verifier::rlimit(40)]
#[verifier::spinoff_prover]
proof fn lemma_leaf_reached<F: Fn(&[u8]) -> Option<Descriptor>>(
    g: Ground<F>,
    from: Seq<Place>,
    entries: Seq<(Seq<u8>, Seq<u8>)>,
    lo: Option<Seq<u8>>,
    hi: Option<Seq<u8>>,
    i: int,
)
    requires
        clash_free(g.objects),
        ({
            let t = Tree::Leaf { entries };
            &&& holds(g.objects, tree_id(t, BTREE_ORDER), t, BTREE_ORDER, g.fanout, lo, hi)
            &&& reachable(g, from, (tree_id(t, BTREE_ORDER), MarkKind::TreeInodeIndex))
        }),
        forall|j: int| 0 <= j < entries.len() ==> (#[trigger] entries[j]).1.len() == 32,
        0 <= i < entries.len(),
    ensures
        reachable(g, from, (entries[i].1, MarkKind::Inode)),
{
    let kind = MarkKind::TreeInodeIndex;
    let t = Tree::Leaf { entries };
    let b = tree_bytes(t, BTREE_ORDER);
    let id = tree_id(t, BTREE_ORDER);
    assert(g.objects.contains(b));
    lemma_object(g.objects, b);
    lemma_node_of(t, BTREE_ORDER);
    lemma_ordered_keyed(t, lo, hi);
    lemma_node_ok(t, BTREE_ORDER, g.fanout);
    node_round_trip(node_of(t, BTREE_ORDER), BTREE_ORDER, g.fanout);
    lemma_table_leaf(entries, g.decode, i);
    assert(out_of(g.objects, g.fanout, g.decode, (id, kind)) == leaf_places(
        kind,
        entries,
        g.decode,
    )) by {
        reveal(out_of);
    }
    assert(leads(g, (id, kind), (entries[i].1, MarkKind::Inode)));
    lemma_reach_step(g, from, (id, kind), (entries[i].1, MarkKind::Inode));
}

/// The inodes that a reached inode table names are reached.
#[verifier::rlimit(40)]
#[verifier::spinoff_prover]
proof fn lemma_rows_reached<F: Fn(&[u8]) -> Option<Descriptor>>(
    g: Ground<F>,
    from: Seq<Place>,
    t: Tree,
    lo: Option<Seq<u8>>,
    hi: Option<Seq<u8>>,
    i: int,
)
    requires
        clash_free(g.objects),
        holds(g.objects, tree_id(t, BTREE_ORDER), t, BTREE_ORDER, g.fanout, lo, hi),
        reachable(g, from, (tree_id(t, BTREE_ORDER), MarkKind::TreeInodeIndex)),
        forall|j: int| 0 <= j < flat(t).len() ==> (#[trigger] flat(t)[j]).1.len() == 32,
        0 <= i < flat(t).len(),
    ensures
        reachable(g, from, (flat(t)[i].1, MarkKind::Inode)),
    decreases t,
{
    let kind = MarkKind::TreeInodeIndex;
    match t {
        Tree::Leaf { entries } => {
            lemma_leaf_reached(g, from, entries, lo, hi, i);
        },
        Tree::Internal { seps, kids } => {
            lemma_flat(seps, kids);
            let fs = flats(kids);
            lemma_concat_index(fs, i);
            let (c, j) = choose|c: int, j: int|
                #![trigger fs[c][j]]
                0 <= c < fs.len() && 0 <= j < fs[c].len() && fs[c][j] == concat(fs)[i]
                    && part_of_concat(fs, c);
            assert(fs[c] == flat(kids[c]));
            lemma_kid_reached(g, from, t, kind, lo, hi, c);
            assert(ordered(kids[c], kid_lo(seps, lo, c), kid_hi(seps, hi, c)));
            assert forall|x: int| 0 <= x < flat(kids[c]).len() implies (#[trigger] flat(
                kids[c],
            )[x]).1.len() == 32 by {
                lemma_concat_holds(fs, c, x);
                let y = choose|y: int| 0 <= y < concat(fs).len() && #[trigger] concat(fs)[y] == fs[c][x];
                assert(flat(t)[y].1.len() == 32);
            }
            lemma_rows_reached(
                g,
                from,
                kids[c],
                kid_lo(seps, lo, c),
                kid_hi(seps, hi, c),
                j,
            );
        },
    }
}

spec fn part_of_concat(fs: Seq<Seq<(Seq<u8>, Seq<u8>)>>, c: int) -> bool {
    true
}

/// What is in a concatenation is in one of its parts.
proof fn lemma_concat_index(fs: Seq<Seq<(Seq<u8>, Seq<u8>)>>, i: int)
    requires
        0 <= i < concat(fs).len(),
    ensures
        exists|c: int, j: int|
            #![trigger fs[c][j]]
            0 <= c < fs.len() && 0 <= j < fs[c].len() && fs[c][j] == concat(fs)[i]
                && part_of_concat(fs, c),
    decreases fs.len(),
{
    if fs.len() > 0 {
        let p = fs.drop_last();
        assert(concat(fs) == concat(p) + fs.last());
        if i < concat(p).len() {
            lemma_concat_index(p, i);
            let (c, j) = choose|c: int, j: int|
                #![trigger p[c][j]]
                0 <= c < p.len() && 0 <= j < p[c].len() && p[c][j] == concat(p)[i]
                    && part_of_concat(p, c);
            assert(fs[c][j] == concat(fs)[i] && part_of_concat(fs, c));
        } else {
            let c = fs.len() - 1;
            let j = i - concat(p).len();
            assert(fs[c][j] == concat(fs)[i] && part_of_concat(fs, c));
        }
    }
}

/// What is in a part is in the concatenation.
proof fn lemma_concat_holds(fs: Seq<Seq<(Seq<u8>, Seq<u8>)>>, c: int, x: int)
    requires
        0 <= c < fs.len(),
        0 <= x < fs[c].len(),
    ensures
        exists|y: int| 0 <= y < concat(fs).len() && #[trigger] concat(fs)[y] == fs[c][x],
    decreases fs.len(),
{
    let p = fs.drop_last();
    assert(concat(fs) == concat(p) + fs.last());
    if c < fs.len() - 1 {
        lemma_concat_holds(p, c, x);
        let y = choose|y: int| 0 <= y < concat(p).len() && #[trigger] concat(p)[y] == p[c][x];
        assert(concat(fs)[y] == fs[c][x]);
    } else {
        let y = concat(p).len() + x;
        assert(concat(fs)[y] == fs[c][x]);
    }
}

/// A reached inode leads to its trees.
#[verifier::rlimit(40)]
#[verifier::spinoff_prover]
proof fn lemma_inode_reached<F: Fn(&[u8]) -> Option<Descriptor>>(
    g: Ground<F>,
    from: Seq<Place>,
    id: Seq<u8>,
)
    requires
        reachable(g, from, (id, MarkKind::Inode)),
        stored_inode(g.objects, id) is Some,
    ensures
        ({
            let v = stored_inode(g.objects, id)->0;
            &&& v.xattr_root != zero_id() ==> reachable(g, from, (v.xattr_root, MarkKind::TreeXattr))
            &&& v.data is Directory && data_root(v.data) != zero_id() ==> reachable(
                g,
                from,
                (data_root(v.data), MarkKind::TreeDirectory),
            )
            &&& v.data is File && data_root(v.data) != zero_id() ==> reachable(
                g,
                from,
                (data_root(v.data), MarkKind::TreeExtent),
            )
            &&& !(v.data is Directory) && !(v.data is File) ==> data_root(v.data) == zero_id()
        }),
{
    reveal(out_of);
    let v = stored_inode(g.objects, id)->0;
    let y = (id, MarkKind::Inode);
    let a = unless_zero(v.xattr_root, MarkKind::TreeXattr);
    let out = inode_places(v);
    assert(out_of(g.objects, g.fanout, g.decode, y) == Some(out));
    if v.xattr_root != zero_id() {
        let x = (v.xattr_root, MarkKind::TreeXattr);
        assert(out[0] == x);
        assert(leads(g, y, x));
        lemma_reach_step(g, from, y, x);
    }
    let r = data_root(v.data);
    if r != zero_id() {
        match v.data {
            DataView::Directory { .. } => {
                let x = (r, MarkKind::TreeDirectory);
                assert(out[a.len() as int] == x);
                assert(leads(g, y, x));
                lemma_reach_step(g, from, y, x);
            },
            DataView::File { .. } => {
                let x = (r, MarkKind::TreeExtent);
                assert(out[a.len() as int] == x);
                assert(leads(g, y, x));
                lemma_reach_step(g, from, y, x);
            },
            _ => {},
        }
    }
}

/// A namespace whose table is reached is whole in what is kept.
#[verifier::rlimit(40)]
#[verifier::spinoff_prover]
proof fn lemma_namespace_kept<F: Fn(&[u8]) -> Option<Descriptor>>(
    g: Ground<F>,
    from: Seq<Place>,
    kept: Set<Seq<u8>>,
    table: Seq<u8>,
    h: nat,
)
    requires
        clash_free(g.objects),
        kept.subset_of(g.objects),
        keeps(g, from, kept),
        fs_ok(g.objects, table, g.fanout, h),
        table != zero_id() ==> reachable(g, from, (table, MarkKind::TreeInodeIndex)),
    ensures
        fs_ok(kept, table, g.fanout, h),
{
    let a = g.objects;
    let f = g.fanout;
    let s = listing(a, table, f);
    lemma_clash_free_subset(kept, a);
    lemma_tree_kept(g, from, kept, table, MarkKind::TreeInodeIndex, h);
    assert forall|i: int| 0 <= i < s.len() implies row_ok(
        kept,
        #[trigger] s[i],
        f,
        h,
    ) by {
        let id = s[i].1;
        assert(row_ok(a, s[i], f, h));
        if table == zero_id() {
            assert(s.len() == 0);
        }
        let t = tree_at(a, table, BTREE_ORDER, f);
        lemma_tree_at(a, table, BTREE_ORDER, f);
        assert(flat(t) == s);
        assert forall|j: int| 0 <= j < flat(t).len() implies (#[trigger] flat(t)[j]).1.len() == 32 by {
            assert(row_ok(a, s[j], f, h));
        }
        lemma_rows_reached(g, from, t, None, None, i);
        let b = object(a, id)->0;
        assert(a.contains(b) && digest(b) == id);
        assert(reachable(g, from, (digest(b), MarkKind::Inode)));
        assert(kept.contains(b));
        lemma_object(kept, b);
        let v = stored_inode(a, id)->0;
        lemma_inode_reached(g, from, id);
        let kind = if v.data is Directory {
            MarkKind::TreeDirectory
        } else {
            MarkKind::TreeExtent
        };
        lemma_tree_kept(g, from, kept, data_root(v.data), kind, h);
        lemma_tree_kept(g, from, kept, v.xattr_root, MarkKind::TreeXattr, h);
    }
}

/// The inode table of the current root, as a place.
spec fn table_of<B: IoBackend>(st: Store<B>) -> Place {
    (st.root@.inode_index_root, MarkKind::TreeInodeIndex)
}

/// The current root leads to its inode table, which is among the pins.
proof fn lemma_table_reached<B: IoBackend, F: Fn(&[u8]) -> Option<Descriptor>>(
    a: Store<B>,
    decode: F,
)
    requires
        clash_free(a.objects()),
        root_ok(a.root@),
        a.objects().contains(root_bytes(a.root@)),
    ensures
        reachable(ground(a, decode), roots_of(a), table_of(a)),
        reachable(ground(a, decode), pins_of(a), table_of(a)),
        reachable(ground(a, decode), seq![table_of(a)], table_of(a)),
{
    let g = ground(a, decode);
    let first = table_of(a);
    let top = (digest(root_bytes(a.root@)), MarkKind::Root);
    lemma_root_out(g, a.root@);
    lemma_first_place(a.root@);
    assert(leads(g, top, first));
    lemma_heads(a);
    lemma_start(g, roots_of(a), 0);
    lemma_reach_step(g, roots_of(a), top, first);
    lemma_start(g, pins_of(a), 0);
    lemma_start(g, seq![first], 0);
}

proof fn lemma_root_out<F: Fn(&[u8]) -> Option<Descriptor>>(g: Ground<F>, v: RootView)
    requires
        clash_free(g.objects),
        root_ok(v),
        g.objects.contains(root_bytes(v)),
    ensures
        out_of(g.objects, g.fanout, g.decode, (digest(root_bytes(v)), MarkKind::Root)) == Some(
            root_places(v),
        ),
{
    root_round_trip(v);
    lemma_object(g.objects, root_bytes(v));
    reveal(out_of);
}

proof fn lemma_first_place(v: RootView)
    ensures
        root_places(v).contains((v.inode_index_root, MarkKind::TreeInodeIndex)),
{
    assert(root_places(v)[0] == (v.inode_index_root, MarkKind::TreeInodeIndex));
}

proof fn lemma_heads<B: IoBackend>(a: Store<B>)
    ensures
        roots_of(a).len() > 0,
        roots_of(a)[0] == (digest(root_bytes(a.root@)), MarkKind::Root),
        pins_of(a).len() > 0,
        pins_of(a)[0] == table_of(a),
{
}

/// A place to start from is reached.
proof fn lemma_start<F: Fn(&[u8]) -> Option<Descriptor>>(g: Ground<F>, from: Seq<Place>, i: int)
    requires
        0 <= i < from.len(),
    ensures
        reachable(g, from, from[i]),
{
    assert(from.contains(from[i]));
    assert(reach_in(g, from, from[i], 0));
}

/// An object that both the roots and the pins reach survives.
#[verifier::rlimit(40)]
#[verifier::spinoff_prover]
proof fn lemma_kept<B: IoBackend, F: Fn(&[u8]) -> Option<Descriptor>>(
    a: Store<B>,
    b: Store<B>,
    decode: F,
    m: LiveMark,
    tree: RebuiltIndex,
    gone: Seq<u64>,
    replaced: Set<Seq<u8>>,
    x: Seq<u8>,
    k: MarkKind,
)
    requires
        a.wf(),
        compacted(a, b, tree, gone, id_set(m.live), replaced),
        marked(a, decode, m),
        replaces(a, decode, replaced),
        clash_free(a.objects()),
        clash_free(a.objects().union(b.objects())),
        a.objects().contains(x),
        reachable(ground(a, decode), roots_of(a), (digest(x), k)),
        reachable(ground(a, decode), pins_of(a), (digest(x), k)),
    ensures
        b.objects().contains(x),
{
    let p = (digest(x), k);
    mark_holds_reachable(a, decode, m, p);
    lemma_not_replaced(a, decode, replaced, p);
    lemma_object_indexed(a, x);
    assert(survives(a.index@, gone, id_set(m.live), replaced, digest(x)));
    assert(digest_found(b.objects(), x));
    let y = choose|y: Seq<u8>| #[trigger] b.objects().contains(y) && digest(y) == digest(x);
    let u = a.objects().union(b.objects());
    assert(u.contains(x) && u.contains(y));
}

/// An object that the inode table reaches survives.
#[verifier::spinoff_prover]
proof fn lemma_reached_kept<B: IoBackend, F: Fn(&[u8]) -> Option<Descriptor>>(
    a: Store<B>,
    b: Store<B>,
    decode: F,
    m: LiveMark,
    tree: RebuiltIndex,
    gone: Seq<u64>,
    replaced: Set<Seq<u8>>,
    x: Seq<u8>,
    k: MarkKind,
)
    requires
        a.wf(),
        compacted(a, b, tree, gone, id_set(m.live), replaced),
        marked(a, decode, m),
        replaces(a, decode, replaced),
        root_ok(a.root@),
        a.objects().contains(root_bytes(a.root@)),
        clash_free(a.objects()),
        clash_free(a.objects().union(b.objects())),
        a.objects().contains(x),
        reachable(ground(a, decode), seq![table_of(a)], (digest(x), k)),
        k != MarkKind::Root,
    ensures
        b.objects().contains(x),
{
    let g = ground(a, decode);
    let p = (digest(x), k);
    lemma_table_reached(a, decode);
    lemma_reach_on(g, seq![table_of(a)], roots_of(a), p);
    lemma_reach_on(g, seq![table_of(a)], pins_of(a), p);
    lemma_kept(a, b, decode, m, tree, gone, replaced, x, k);
}

/// A collection keeps the namespace: what the current root describes is described after
/// it as before, in trees of the same height.
#[verifier::spinoff_prover]
pub proof fn collection_keeps_namespace<B: IoBackend, F: Fn(&[u8]) -> Option<Descriptor>>(
    a: Store<B>,
    b: Store<B>,
    victims: Seq<u64>,
    decode: F,
    m: LiveMark,
    tree: RebuiltIndex,
    gone: Seq<u64>,
    replaced: Set<Seq<u8>>,
    h: nat,
)
    requires
        a.wf(),
        collected(a, b, victims, decode, m, tree, gone, replaced),
        markable(a, h),
        a.whole(h),
        root_ok(a.root@),
        a.objects().contains(root_bytes(a.root@)),
        clash_free(a.objects().union(b.objects())),
    ensures
        b.whole(h),
        b.ns() == a.ns(),
{
    let g = ground(a, decode);
    let f = a.config.max_fanout;
    let from = seq![table_of(a)];
    let table = a.root@.inode_index_root;
    let kept = a.objects().intersect(b.objects());
    lemma_clash_free_subset(a.objects(), a.objects().union(b.objects()));
    lemma_clash_free_subset(b.objects(), a.objects().union(b.objects()));
    lemma_table_reached(a, decode);
    assert(b.root@.inode_index_root == table && b.config.max_fanout == f);
    assert(marked(a, decode, m) && replaces(a, decode, replaced));
    assert forall|x: Seq<u8>, k: MarkKind|
        #![trigger g.objects.contains(x), reachable(g, from, (digest(x), k))]
        g.objects.contains(x) && reachable(g, from, (digest(x), k)) && k
            != MarkKind::Root implies kept.contains(x) by {
        lemma_reached_kept(a, b, decode, m, tree, gone, replaced, x, k);
    }
    assert(keeps(g, from, kept));
    lemma_namespace_kept(g, from, kept, table, h);
    lemma_fs_grows(kept, a.objects(), table, f, h, h);
    lemma_fs_grows(kept, b.objects(), table, f, h, h);
}

/// What is reached from a reached place is reached.
proof fn lemma_reach_on<F: Fn(&[u8]) -> Option<Descriptor>>(
    g: Ground<F>,
    near: Seq<Place>,
    from: Seq<Place>,
    x: Place,
)
    requires
        reachable(g, near, x),
        forall|i: int| 0 <= i < near.len() ==> reachable(g, from, #[trigger] near[i]),
    ensures
        reachable(g, from, x),
{
    let n = choose|n: nat| #[trigger] reach_in(g, near, x, n);
    lemma_reach_on_in(g, near, from, x, n);
}

proof fn lemma_reach_on_in<F: Fn(&[u8]) -> Option<Descriptor>>(
    g: Ground<F>,
    near: Seq<Place>,
    from: Seq<Place>,
    x: Place,
    n: nat,
)
    requires
        reach_in(g, near, x, n),
        forall|i: int| 0 <= i < near.len() ==> reachable(g, from, #[trigger] near[i]),
    ensures
        reachable(g, from, x),
    decreases n,
{
    if n == 0 {
        let i = choose|i: int| 0 <= i < near.len() && near[i] == x;
        assert(reachable(g, from, near[i]));
    } else {
        let y = choose|y: Place| #[trigger]
            leads(g, y, x) && reach_in(g, near, y, (n - 1) as nat);
        lemma_reach_on_in(g, near, from, y, (n - 1) as nat);
        lemma_reach_step(g, from, y, x);
    }
}

/// What the pins reach is not replaced.
proof fn lemma_not_replaced<B: IoBackend, F: Fn(&[u8]) -> Option<Descriptor>>(
    a: Store<B>,
    decode: F,
    replaced: Set<Seq<u8>>,
    x: Place,
)
    requires
        replaces(a, decode, replaced),
        reachable(ground(a, decode), pins_of(a), x),
        reachable(ground(a, decode), roots_of(a), x),
    ensures
        !replaced.contains(x.0),
{
    let g = ground(a, decode);
    lemma_heads(a);
    lemma_start(g, roots_of(a), 0);
    let (nodes, pinned, d1, d2) = choose|
        nodes: Set<Seq<u8>>,
        pinned: Set<Seq<u8>>,
        d1: Set<Place>,
        d2: Set<Place>,
    |
        #[trigger] replaces_by(a, decode, replaced, nodes, pinned, d1, d2);
    let n = choose|n: nat| #[trigger] reach_in(g, pins_of(a), x, n);
    lemma_all_done(g, pins_of(a), d2, pinned, x, n);
}

// ---------------------------------------------------------------------------
// Snapshots and data
// ---------------------------------------------------------------------------

/// What a value of a leaf leads to, the leaf leads to.
proof fn lemma_leaf_value<F: Fn(&[u8]) -> Option<Descriptor>>(
    kind: MarkKind,
    entries: Seq<(Seq<u8>, Seq<u8>)>,
    decode: F,
    i: int,
    x: Place,
)
    requires
        forall|j: int|
            0 <= j < entries.len() ==> value_places(kind, (#[trigger] entries[j]).1, decode) is Some,
        0 <= i < entries.len(),
        value_places(kind, entries[i].1, decode)->0.contains(x),
    ensures
        leaf_places(kind, entries, decode) matches Some(s) && s.contains(x),
    decreases entries.len(),
{
    let p = entries.drop_last();
    let n = entries.len() - 1;
    assert(entries[n] == entries.last());
    assert forall|j: int| 0 <= j < p.len() implies value_places(
        kind,
        (#[trigger] p[j]).1,
        decode,
    ) is Some by {
        assert(p[j] == entries[j]);
    }
    lemma_leaf_some(kind, p, decode);
    let a = leaf_places(kind, p, decode)->0;
    let b = value_places(kind, entries.last().1, decode)->0;
    if i < n {
        assert(p[i] == entries[i]);
        lemma_leaf_value(kind, p, decode, i, x);
        let j = choose|j: int| 0 <= j < a.len() && a[j] == x;
        assert((a + b)[j] == x);
    } else {
        let j = choose|j: int| 0 <= j < b.len() && b[j] == x;
        assert((a + b)[a.len() + j] == x);
    }
}

proof fn lemma_leaf_some<F: Fn(&[u8]) -> Option<Descriptor>>(
    kind: MarkKind,
    entries: Seq<(Seq<u8>, Seq<u8>)>,
    decode: F,
)
    requires
        forall|j: int|
            0 <= j < entries.len() ==> value_places(kind, (#[trigger] entries[j]).1, decode) is Some,
    ensures
        leaf_places(kind, entries, decode) is Some,
    decreases entries.len(),
{
    if entries.len() > 0 {
        let p = entries.drop_last();
        assert(entries[entries.len() - 1] == entries.last());
        assert forall|j: int| 0 <= j < p.len() implies value_places(
            kind,
            (#[trigger] p[j]).1,
            decode,
        ) is Some by {
            assert(p[j] == entries[j]);
        }
        lemma_leaf_some(kind, p, decode);
    }
}

/// What the values of a reached leaf lead to is reached, and the leaf holds them.
#[verifier::rlimit(40)]
#[verifier::spinoff_prover]
proof fn lemma_leaf_places<F: Fn(&[u8]) -> Option<Descriptor>>(
    g: Ground<F>,
    from: Seq<Place>,
    entries: Seq<(Seq<u8>, Seq<u8>)>,
    kind: MarkKind,
    lo: Option<Seq<u8>>,
    hi: Option<Seq<u8>>,
)
    requires
        clash_free(g.objects),
        ({
            let t = Tree::Leaf { entries };
            holds(g.objects, tree_id(t, BTREE_ORDER), t, BTREE_ORDER, g.fanout, lo, hi)
        }),
        tree_kind(kind),
    ensures
        ({
            let id = tree_id(Tree::Leaf { entries }, BTREE_ORDER);
            &&& out_of(g.objects, g.fanout, g.decode, (id, kind)) == leaf_places(
                kind,
                entries,
                g.decode,
            )
            &&& kind == MarkKind::TreeExtent ==> descriptors_at(g.objects, g.fanout, (id, kind))
                == Seq::new(entries.len(), |i: int| entries[i].1)
        }),
{
    let t = Tree::Leaf { entries };
    let b = tree_bytes(t, BTREE_ORDER);
    assert(g.objects.contains(b));
    lemma_object(g.objects, b);
    lemma_node_of(t, BTREE_ORDER);
    lemma_ordered_keyed(t, lo, hi);
    lemma_node_ok(t, BTREE_ORDER, g.fanout);
    node_round_trip(node_of(t, BTREE_ORDER), BTREE_ORDER, g.fanout);
    reveal(out_of);
    reveal(descriptors_at);
}

/// A reached place holds this extent descriptor.
spec fn holds_descriptor<F: Fn(&[u8]) -> Option<Descriptor>>(
    g: Ground<F>,
    from: Seq<Place>,
    d: Seq<u8>,
) -> bool {
    exists|y: Place| #[trigger]
        reachable(g, from, y) && descriptors_at(g.objects, g.fanout, y).contains(d)
}

/// What a value of a reached tree leads to is reached; an extent descriptor is held by a
/// reached place.
#[verifier::rlimit(40)]
#[verifier::spinoff_prover]
proof fn lemma_value_reached<F: Fn(&[u8]) -> Option<Descriptor>>(
    g: Ground<F>,
    from: Seq<Place>,
    t: Tree,
    kind: MarkKind,
    lo: Option<Seq<u8>>,
    hi: Option<Seq<u8>>,
    i: int,
)
    requires
        clash_free(g.objects),
        holds(g.objects, tree_id(t, BTREE_ORDER), t, BTREE_ORDER, g.fanout, lo, hi),
        tree_kind(kind),
        reachable(g, from, (tree_id(t, BTREE_ORDER), kind)),
        forall|j: int|
            0 <= j < flat(t).len() ==> value_places(kind, (#[trigger] flat(t)[j]).1, g.decode) is Some,
        0 <= i < flat(t).len(),
    ensures
        forall|x: Place| #[trigger]
            value_places(kind, flat(t)[i].1, g.decode)->0.contains(x) ==> reachable(g, from, x),
        kind == MarkKind::TreeExtent ==> holds_descriptor(g, from, flat(t)[i].1),
    decreases t,
{
    match t {
        Tree::Leaf { entries } => {
            let id = tree_id(t, BTREE_ORDER);
            assert(g.objects.contains(tree_bytes(t, BTREE_ORDER)));
            lemma_leaf_places(g, from, entries, kind, lo, hi);
            assert(flat(t) == entries);
            assert forall|x: Place| #[trigger]
                value_places(kind, flat(t)[i].1, g.decode)->0.contains(x) implies reachable(
                g,
                from,
                x,
            ) by {
                lemma_leaf_value(kind, entries, g.decode, i, x);
                assert(leads(g, (id, kind), x));
                lemma_reach_step(g, from, (id, kind), x);
            }
            if kind == MarkKind::TreeExtent {
                let ds = descriptors_at(g.objects, g.fanout, (id, kind));
                assert(ds[i] == entries[i].1);
                assert(ds.contains(entries[i].1));
            }
        },
        Tree::Internal { seps, kids } => {
            lemma_flat(seps, kids);
            let fs = flats(kids);
            lemma_concat_index(fs, i);
            let (c, j) = choose|c: int, j: int|
                #![trigger fs[c][j]]
                0 <= c < fs.len() && 0 <= j < fs[c].len() && fs[c][j] == concat(fs)[i]
                    && part_of_concat(fs, c);
            assert(fs[c] == flat(kids[c]));
            lemma_kid_reached(g, from, t, kind, lo, hi, c);
            assert(ordered(kids[c], kid_lo(seps, lo, c), kid_hi(seps, hi, c)));
            assert forall|x: int| 0 <= x < flat(kids[c]).len() implies value_places(
                kind,
                (#[trigger] flat(kids[c])[x]).1,
                g.decode,
            ) is Some by {
                lemma_concat_holds(fs, c, x);
                let y = choose|y: int| 0 <= y < concat(fs).len() && #[trigger] concat(fs)[y] == fs[c][x];
                assert(value_places(kind, flat(t)[y].1, g.decode) is Some);
            }
            lemma_value_reached(
                g,
                from,
                kids[c],
                kind,
                kid_lo(seps, lo, c),
                kid_hi(seps, hi, c),
                j,
            );
        },
    }
}

/// The objects of a file's extents are reached from the inode table, and the descriptors of
/// the extents are held by reached places.
#[verifier::rlimit(40)]
#[verifier::spinoff_prover]
proof fn lemma_extent_reached<F: Fn(&[u8]) -> Option<Descriptor>>(
    g: Ground<F>,
    from: Seq<Place>,
    table: Seq<u8>,
    h: nat,
    ino: u64,
    i: int,
)
    requires
        clash_free(g.objects),
        fs_ok(g.objects, table, g.fanout, h),
        table != zero_id() ==> reachable(g, from, (table, MarkKind::TreeInodeIndex)),
        has_file(ns(g.objects, table, g.fanout), ino),
        0 <= i < ns(g.objects, table, g.fanout)[ino].entries.len(),
    ensures
        ({
            let v = ns(g.objects, table, g.fanout)[ino].entries[i].1;
            &&& forall|x: Place| #[trigger]
                descriptor_places(v, g.decode).contains(x) ==> reachable(g, from, x)
            &&& holds_descriptor(g, from, v)
        }),
{
    let p = g.objects;
    let f = g.fanout;
    let s = listing(p, table, f);
    let k = ino_key(ino);
    lemma_ns_at(p, table, f, h, ino);
    lemma_tree_sorted(p, table, f, h);
    lemma_has_key(s, k);
    let r = rank(s, k);
    assert(s[r].0 == k && row_ok(p, s[r], f, h));
    if table == zero_id() {
        assert(s.len() == 0);
    }
    let t = tree_at(p, table, BTREE_ORDER, f);
    lemma_tree_at(p, table, BTREE_ORDER, f);
    assert(flat(t) == s);
    assert forall|j: int| 0 <= j < flat(t).len() implies (#[trigger] flat(t)[j]).1.len() == 32 by {
        assert(row_ok(p, s[j], f, h));
    }
    lemma_rows_reached(g, from, t, None, None, r);
    let id = s[r].1;
    let v = stored_inode(p, id)->0;
    lemma_inode_reached(g, from, id);
    assert(v.data is File);
    let root = data_root(v.data);
    let es = listing(p, root, f);
    assert(ns(p, table, f)[ino].entries == es);
    if root == zero_id() {
        assert(es.len() == 0);
    }
    let u = tree_at(p, root, BTREE_ORDER, f);
    assert(tree_ok(p, root, f, h));
    lemma_tree_at(p, root, BTREE_ORDER, f);
    assert(flat(u) == es);
    assert forall|j: int| 0 <= j < flat(u).len() implies value_places(
        MarkKind::TreeExtent,
        (#[trigger] flat(u)[j]).1,
        g.decode,
    ) is Some by {}
    lemma_value_reached(g, from, u, MarkKind::TreeExtent, None, None, i);
    assert forall|x: Place| #[trigger]
        descriptor_places(es[i].1, g.decode).contains(x) implies reachable(g, from, x) by {
        assert(value_places(MarkKind::TreeExtent, es[i].1, g.decode)->0.contains(x));
    }
}

/// What a law of collections starts from: a store that was collected, whose trees can be read.
pub open spec fn collected_whole<B: IoBackend, F: Fn(&[u8]) -> Option<Descriptor>>(
    a: Store<B>,
    b: Store<B>,
    victims: Seq<u64>,
    decode: F,
    m: LiveMark,
    tree: RebuiltIndex,
    gone: Seq<u64>,
    replaced: Set<Seq<u8>>,
    h: nat,
) -> bool {
    &&& a.wf()
    &&& collected(a, b, victims, decode, m, tree, gone, replaced)
    &&& markable(a, h)
    &&& root_ok(a.root@)
    &&& a.objects().contains(root_bytes(a.root@))
    &&& clash_free(a.objects().union(b.objects()))
}

/// The snapshot is reached from the roots and from the pins, and so is the snapshot tree.
proof fn lemma_snapshot_reached<B: IoBackend, F: Fn(&[u8]) -> Option<Descriptor>>(
    a: Store<B>,
    decode: F,
    i: int,
)
    requires
        clash_free(a.objects()),
        root_ok(a.root@),
        a.objects().contains(root_bytes(a.root@)),
    ensures
        0 <= i < snapshots_of(a).len() ==> ({
            let p = (parse_snapshot(snapshots_of(a)[i].1)->Ok_0.0, MarkKind::Root);
            reachable(ground(a, decode), roots_of(a), p) && reachable(
                ground(a, decode),
                pins_of(a),
                p,
            )
        }),
        a.root@.snapshot_tree_root != zero_id() ==> ({
            let p = (a.root@.snapshot_tree_root, MarkKind::TreeSnapshot);
            reachable(ground(a, decode), roots_of(a), p) && reachable(
                ground(a, decode),
                pins_of(a),
                p,
            )
        }),
{
    let g = ground(a, decode);
    if 0 <= i < snapshots_of(a).len() {
        let p = (parse_snapshot(snapshots_of(a)[i].1)->Ok_0.0, MarkKind::Root);
        assert(roots_of(a)[1 + i] == p);
        lemma_start(g, roots_of(a), 1 + i);
        let k = named_trees(a).len() + i;
        assert(pins_of(a)[k] == p);
        lemma_start(g, pins_of(a), k);
    }
    if a.root@.snapshot_tree_root != zero_id() {
        let p = (a.root@.snapshot_tree_root, MarkKind::TreeSnapshot);
        let top = (digest(root_bytes(a.root@)), MarkKind::Root);
        lemma_root_out(g, a.root@);
        assert(root_places(a.root@)[2] == p);
        assert(root_places(a.root@).contains(p));
        assert(leads(g, top, p));
        lemma_heads(a);
        lemma_start(g, roots_of(a), 0);
        lemma_reach_step(g, roots_of(a), top, p);
        assert(pins_of(a)[1] == p);
        lemma_start(g, pins_of(a), 1);
    }
}

/// The objects that a place reaches are kept, where the roots and the pins reach the place.
proof fn lemma_keeps<B: IoBackend, F: Fn(&[u8]) -> Option<Descriptor>>(
    a: Store<B>,
    b: Store<B>,
    victims: Seq<u64>,
    decode: F,
    m: LiveMark,
    tree: RebuiltIndex,
    gone: Seq<u64>,
    replaced: Set<Seq<u8>>,
    h: nat,
    from: Place,
)
    requires
        collected_whole(a, b, victims, decode, m, tree, gone, replaced, h),
        reachable(ground(a, decode), roots_of(a), from),
        reachable(ground(a, decode), pins_of(a), from),
    ensures
        keeps(ground(a, decode), seq![from], a.objects().intersect(b.objects())),
        reachable(ground(a, decode), seq![from], from),
{
    let g = ground(a, decode);
    let kept = a.objects().intersect(b.objects());
    lemma_clash_free_subset(a.objects(), a.objects().union(b.objects()));
    lemma_start(g, seq![from], 0);
    assert forall|x: Seq<u8>, k: MarkKind|
        #![trigger g.objects.contains(x), reachable(g, seq![from], (digest(x), k))]
        g.objects.contains(x) && reachable(g, seq![from], (digest(x), k)) && k
            != MarkKind::Root implies kept.contains(x) by {
        lemma_reach_on(g, seq![from], roots_of(a), (digest(x), k));
        lemma_reach_on(g, seq![from], pins_of(a), (digest(x), k));
        lemma_kept(a, b, decode, m, tree, gone, replaced, x, k);
    }
}

/// A collection keeps the snapshots: the same ones are listed after it as before.
#[verifier::spinoff_prover]
pub proof fn collection_keeps_snapshots<B: IoBackend, F: Fn(&[u8]) -> Option<Descriptor>>(
    a: Store<B>,
    b: Store<B>,
    victims: Seq<u64>,
    decode: F,
    m: LiveMark,
    tree: RebuiltIndex,
    gone: Seq<u64>,
    replaced: Set<Seq<u8>>,
    h: nat,
)
    requires
        collected_whole(a, b, victims, decode, m, tree, gone, replaced, h),
    ensures
        b.snaps_ok(h),
        b.snaps() == a.snaps(),
{
    let g = ground(a, decode);
    let root = a.root@.snapshot_tree_root;
    let f = a.config.max_fanout;
    let kept = a.objects().intersect(b.objects());
    let from = (root, MarkKind::TreeSnapshot);
    lemma_clash_free_subset(a.objects(), a.objects().union(b.objects()));
    lemma_clash_free_subset(b.objects(), a.objects().union(b.objects()));
    lemma_clash_free_subset(kept, a.objects());
    lemma_snapshot_reached(a, decode, 0);
    assert(b.root@.snapshot_tree_root == root && b.config.max_fanout == f);
    if root != zero_id() {
        lemma_keeps(a, b, victims, decode, m, tree, gone, replaced, h, from);
        lemma_tree_kept(g, seq![from], kept, root, MarkKind::TreeSnapshot, h);
        lemma_tree_grows(kept, b.objects(), root, f, h, h);
    } else {
        lemma_listing(b.objects(), root, f, h, Seq::empty());
        lemma_listing(a.objects(), root, f, h, Seq::empty());
    }
}

/// A collection keeps the models: the same ones are listed after it as before.
#[verifier::spinoff_prover]
pub proof fn collection_keeps_models<B: IoBackend, F: Fn(&[u8]) -> Option<Descriptor>>(
    a: Store<B>,
    b: Store<B>,
    victims: Seq<u64>,
    decode: F,
    m: LiveMark,
    tree: RebuiltIndex,
    gone: Seq<u64>,
    replaced: Set<Seq<u8>>,
    h: nat,
)
    requires
        collected_whole(a, b, victims, decode, m, tree, gone, replaced, h),
        tree_ok(a.objects(), a.root@.model_index_root, a.config.max_fanout, h),
    ensures
        b.root@.model_index_root == a.root@.model_index_root,
        tree_ok(b.objects(), b.root@.model_index_root, b.config.max_fanout, h),
        listing(b.objects(), b.root@.model_index_root, b.config.max_fanout) == listing(
            a.objects(),
            a.root@.model_index_root,
            a.config.max_fanout,
        ),
{
    let g = ground(a, decode);
    let root = a.root@.model_index_root;
    let f = a.config.max_fanout;
    let kept = a.objects().intersect(b.objects());
    let from = (root, MarkKind::TreeChunkIndex);
    lemma_clash_free_subset(a.objects(), a.objects().union(b.objects()));
    lemma_clash_free_subset(b.objects(), a.objects().union(b.objects()));
    lemma_clash_free_subset(kept, a.objects());
    if root != zero_id() {
        let top = (digest(root_bytes(a.root@)), MarkKind::Root);
        lemma_root_out(g, a.root@);
        assert(root_places(a.root@).last() == from);
        assert(root_places(a.root@).contains(from));
        assert(leads(g, top, from));
        lemma_heads(a);
        lemma_start(g, roots_of(a), 0);
        lemma_reach_step(g, roots_of(a), top, from);
        let k = named_trees(a).len() - 1;
        assert(pins_of(a)[k] == from);
        lemma_start(g, pins_of(a), k);
        lemma_keeps(a, b, victims, decode, m, tree, gone, replaced, h, from);
        lemma_tree_kept(g, seq![from], kept, root, MarkKind::TreeChunkIndex, h);
        lemma_tree_grows(kept, b.objects(), root, f, h, h);
    } else {
        lemma_listing(b.objects(), root, f, h, Seq::empty());
        lemma_listing(a.objects(), root, f, h, Seq::empty());
    }
}

/// A collection keeps what a snapshot holds: its root is found, and the namespace behind it is
/// the one that it was.
#[verifier::spinoff_prover]
pub proof fn collection_keeps_snapshot_namespace<
    B: IoBackend,
    F: Fn(&[u8]) -> Option<Descriptor>,
>(
    a: Store<B>,
    b: Store<B>,
    victims: Seq<u64>,
    decode: F,
    m: LiveMark,
    tree: RebuiltIndex,
    gone: Seq<u64>,
    replaced: Set<Seq<u8>>,
    h: nat,
    i: int,
    r: RootView,
)
    requires
        collected_whole(a, b, victims, decode, m, tree, gone, replaced, h),
        0 <= i < a.snaps().len(),
        parse_snapshot(a.snaps()[i].1) matches Ok(e) && e.0 == digest(root_bytes(r)),
        root_ok(r),
        a.objects().contains(root_bytes(r)),
        fs_ok(a.objects(), r.inode_index_root, a.config.max_fanout, h),
    ensures
        b.objects().contains(root_bytes(r)),
        fs_ok(b.objects(), r.inode_index_root, b.config.max_fanout, h),
        ns(b.objects(), r.inode_index_root, b.config.max_fanout) == ns(
            a.objects(),
            r.inode_index_root,
            a.config.max_fanout,
        ),
{
    let g = ground(a, decode);
    let f = a.config.max_fanout;
    let kept = a.objects().intersect(b.objects());
    let table = r.inode_index_root;
    lemma_clash_free_subset(a.objects(), a.objects().union(b.objects()));
    lemma_clash_free_subset(b.objects(), a.objects().union(b.objects()));
    lemma_snapshot_table(a, decode, i, r);
    lemma_snapshot_reached(a, decode, i);
    lemma_kept(a, b, decode, m, tree, gone, replaced, root_bytes(r), MarkKind::Root);
    let from = (table, MarkKind::TreeInodeIndex);
    lemma_keeps(a, b, victims, decode, m, tree, gone, replaced, h, from);
    lemma_namespace_kept(g, seq![from], kept, table, h);
    lemma_fs_grows(kept, a.objects(), table, f, h, h);
    lemma_fs_grows(kept, b.objects(), table, f, h, h);
}

/// The root of a snapshot leads to its inode table.
proof fn lemma_snapshot_table<B: IoBackend, F: Fn(&[u8]) -> Option<Descriptor>>(
    a: Store<B>,
    decode: F,
    i: int,
    r: RootView,
)
    requires
        clash_free(a.objects()),
        root_ok(a.root@),
        a.objects().contains(root_bytes(a.root@)),
        0 <= i < a.snaps().len(),
        parse_snapshot(a.snaps()[i].1) matches Ok(e) && e.0 == digest(root_bytes(r)),
        root_ok(r),
        a.objects().contains(root_bytes(r)),
    ensures
        reachable(
            ground(a, decode),
            roots_of(a),
            (r.inode_index_root, MarkKind::TreeInodeIndex),
        ),
        reachable(
            ground(a, decode),
            pins_of(a),
            (r.inode_index_root, MarkKind::TreeInodeIndex),
        ),
{
    let g = ground(a, decode);
    let top = (digest(root_bytes(r)), MarkKind::Root);
    let first = (r.inode_index_root, MarkKind::TreeInodeIndex);
    lemma_snapshot_reached(a, decode, i);
    lemma_root_out(g, r);
    lemma_first_place(r);
    assert(leads(g, top, first));
    lemma_reach_step(g, roots_of(a), top, first);
    lemma_reach_step(g, pins_of(a), top, first);
}

/// A collection keeps the data of every file, of the current namespace and of the snapshots':
/// each object that the descriptor of one of its extents names is found after it.
#[verifier::spinoff_prover]
pub proof fn collection_keeps_data<B: IoBackend, F: Fn(&[u8]) -> Option<Descriptor>>(
    a: Store<B>,
    b: Store<B>,
    victims: Seq<u64>,
    decode: F,
    m: LiveMark,
    tree: RebuiltIndex,
    gone: Seq<u64>,
    replaced: Set<Seq<u8>>,
    h: nat,
    r: RootView,
    ino: u64,
    i: int,
    j: int,
    x: Seq<u8>,
)
    requires
        collected_whole(a, b, victims, decode, m, tree, gone, replaced, h),
        r == a.root@ || exists|k: int|
            0 <= k < a.snaps().len() && (parse_snapshot((#[trigger] a.snaps()[k]).1) matches Ok(e)
                && e.0 == digest(root_bytes(r))),
        root_ok(r),
        a.objects().contains(root_bytes(r)),
        fs_ok(a.objects(), r.inode_index_root, a.config.max_fanout, h),
        ({
            let n = ns(a.objects(), r.inode_index_root, a.config.max_fanout);
            &&& has_file(n, ino) && 0 <= i < n[ino].entries.len()
            &&& decoded(decode, n[ino].entries[i].1) matches Some(d) && 0 <= j < objects_of(
                d.form,
            ).len() && objects_of(d.form)[j]@ == digest(x)
        }),
        a.objects().contains(x),
    ensures
        b.objects().contains(x),
{
    let g = ground(a, decode);
    let table = r.inode_index_root;
    let from = (table, MarkKind::TreeInodeIndex);
    lemma_clash_free_subset(a.objects(), a.objects().union(b.objects()));
    lemma_table_reached(a, decode);
    if r != a.root@ {
        let k = choose|k: int|
            0 <= k < a.snaps().len() && (parse_snapshot((#[trigger] a.snaps()[k]).1) matches Ok(e)
                && e.0 == digest(root_bytes(r)));
        lemma_snapshot_table(a, decode, k, r);
    }
    let v = ns(a.objects(), table, a.config.max_fanout)[ino].entries[i].1;
    let ids = objects_of(decoded(decode, v)->0.form);
    let p = (digest(x), MarkKind::Object);
    assert(descriptor_places(v, decode)[j] == p);
    assert(descriptor_places(v, decode).contains(p));
    lemma_extent_reached(g, roots_of(a), table, h, ino, i);
    lemma_extent_reached(g, pins_of(a), table, h, ino, i);
    lemma_kept(a, b, decode, m, tree, gone, replaced, x, MarkKind::Object);
}

/// The descriptor of the chunk `y` is a reference to the chunk `c`, or has it for its base.
pub open spec fn hangs_on<B: IoBackend, F: Fn(&[u8]) -> Option<Descriptor>>(
    a: Store<B>,
    decode: F,
    y: Seq<u8>,
    c: Seq<u8>,
) -> bool {
    lookup(a.chunks(), y) matches Some(b) && (decoded(decode, b) matches Some(d) && match d.form {
        Form::ExactRef { target } => target@ == c,
        Form::BaseResidual { base, .. } => base@ == c,
        _ => false,
    })
}

/// The chunk is led to from the first one by a chain of references and bases.
pub open spec fn led_to<B: IoBackend, F: Fn(&[u8]) -> Option<Descriptor>>(
    a: Store<B>,
    decode: F,
    first: Seq<u8>,
    c: Seq<u8>,
    n: nat,
) -> bool
    decreases n,
{
    if n == 0 {
        c == first
    } else {
        exists|y: Seq<u8>| #[trigger]
            hangs_on(a, decode, y, c) && led_to(a, decode, first, y, (n - 1) as nat)
    }
}

proof fn lemma_led_referenced<B: IoBackend, F: Fn(&[u8]) -> Option<Descriptor>>(
    a: Store<B>,
    decode: F,
    m: LiveMark,
    first: Seq<u8>,
    c: Seq<u8>,
    n: nat,
)
    requires
        loaded(a, m.chunks@),
        chained(m.chunks@, decode, m.direct@, id_set(m.referenced)),
        m.direct@.contains(first),
        led_to(a, decode, first, c, n),
    ensures
        id_set(m.referenced).contains(c),
    decreases n,
{
    if n > 0 {
        let y = choose|y: Seq<u8>| #[trigger]
            hangs_on(a, decode, y, c) && led_to(a, decode, first, y, (n - 1) as nat);
        lemma_led_referenced(a, decode, m, first, y, (n - 1) as nat);
        assert(lookup(m.chunks@, y) is Some);
        assert(follows(m.chunks@, decode, y) == Some(c));
    }
}

/// A collection keeps the chunks that the files need: a chunk that the descriptor of an extent
/// refers to, and every one that this leads to over references and bases, is listed after it
/// with the descriptor that it had.
#[verifier::rlimit(40)]
#[verifier::spinoff_prover]
pub proof fn collection_keeps_chunks<B: IoBackend, F: Fn(&[u8]) -> Option<Descriptor>>(
    a: Store<B>,
    b: Store<B>,
    victims: Seq<u64>,
    decode: F,
    m: LiveMark,
    tree: RebuiltIndex,
    gone: Seq<u64>,
    replaced: Set<Seq<u8>>,
    h: nat,
    r: RootView,
    ino: u64,
    i: int,
    j: int,
    c: Seq<u8>,
    n: nat,
)
    requires
        collected_whole(a, b, victims, decode, m, tree, gone, replaced, h),
        clash_free(b.objects().union(tree.payloads@)),
        r == a.root@ || exists|k: int|
            0 <= k < a.snaps().len() && (parse_snapshot((#[trigger] a.snaps()[k]).1) matches Ok(e)
                && e.0 == digest(root_bytes(r))),
        root_ok(r),
        a.objects().contains(root_bytes(r)),
        fs_ok(a.objects(), r.inode_index_root, a.config.max_fanout, h),
        ({
            let s = ns(a.objects(), r.inode_index_root, a.config.max_fanout);
            &&& has_file(s, ino) && 0 <= i < s[ino].entries.len()
            &&& decoded(decode, s[ino].entries[i].1) matches Some(d) && 0 <= j < chunks_of(
                d.form,
            ).len() && led_to(a, decode, chunks_of(d.form)[j]@, c, n)
        }),
    ensures
        lookup(b.chunks(), c) == lookup(a.chunks(), c),
{
    let g = ground(a, decode);
    let table = r.inode_index_root;
    lemma_clash_free_subset(a.objects(), a.objects().union(b.objects()));
    lemma_table_reached(a, decode);
    if r != a.root@ {
        let k = choose|k: int|
            0 <= k < a.snaps().len() && (parse_snapshot((#[trigger] a.snaps()[k]).1) matches Ok(e)
                && e.0 == digest(root_bytes(r)));
        lemma_snapshot_table(a, decode, k, r);
    }
    let v = ns(a.objects(), table, a.config.max_fanout)[ino].entries[i].1;
    lemma_extent_reached(g, roots_of(a), table, h, ino, i);
    let y = choose|y: Place| #[trigger]
        reachable(g, roots_of(a), y) && descriptors_at(g.objects, g.fanout, y).contains(v);
    let steps = choose|steps: nat| #[trigger] reach_in(g, roots_of(a), y, steps);
    lemma_all_done(g, roots_of(a), m.done@, m.walked@, y, steps);
    assert(described(g, m.done@, v));
    let first = chunks_of(decoded(decode, v)->0.form)[j]@;
    assert(mentions(decode, v, first));
    assert(m.direct@.contains(first));
    lemma_led_referenced(a, decode, m, first, c, n);
    lemma_index_rebuilt(a, b, victims, decode, m, tree, gone, replaced, h);
    lemma_tree_sorted(a.objects(), a.root@.chunk_index_root, a.config.max_fanout, h);
    kept_chunks_are_listed(m, a.chunks(), c);
}

/// A collection keeps the objects of the chunks that the files need: each object that the
/// descriptor of such a chunk names is found after it, unless it is also a node of the chunk
/// index that was replaced.
#[verifier::rlimit(40)]
#[verifier::spinoff_prover]
pub proof fn collection_keeps_chunk_objects<B: IoBackend, F: Fn(&[u8]) -> Option<Descriptor>>(
    a: Store<B>,
    b: Store<B>,
    victims: Seq<u64>,
    decode: F,
    m: LiveMark,
    tree: RebuiltIndex,
    gone: Seq<u64>,
    replaced: Set<Seq<u8>>,
    h: nat,
    first: Seq<u8>,
    c: Seq<u8>,
    n: nat,
    j: int,
    x: Seq<u8>,
)
    requires
        collected_whole(a, b, victims, decode, m, tree, gone, replaced, h),
        m.direct@.contains(first),
        led_to(a, decode, first, c, n),
        lookup(a.chunks(), c) is Some,
        decoded(decode, lookup(a.chunks(), c)->0) matches Some(d) && 0 <= j < objects_of(
            d.form,
        ).len() && objects_of(d.form)[j]@ == digest(x),
        a.objects().contains(x),
        !replaced.contains(digest(x)),
    ensures
        b.objects().contains(x),
{
    lemma_clash_free_subset(a.objects(), a.objects().union(b.objects()));
    lemma_led_referenced(a, decode, m, first, c, n);
    assert(lookup(m.chunks@, c) is Some);
    assert(object_of_chunk(m.chunks@, decode, c, digest(x)));
    assert(chunk_object(m.chunks@, decode, id_set(m.referenced), digest(x)));
    assert(id_set(m.live).contains(digest(x)));
    lemma_object_indexed(a, x);
    assert(survives(a.index@, gone, id_set(m.live), replaced, digest(x)));
    assert(digest_found(b.objects(), x));
    let y = choose|y: Seq<u8>| #[trigger] b.objects().contains(y) && digest(y) == digest(x);
    let u = a.objects().union(b.objects());
    assert(u.contains(x) && u.contains(y));
}

/// The chunk index after a collection lists the kept entries.
#[verifier::spinoff_prover]
proof fn lemma_index_rebuilt<B: IoBackend, F: Fn(&[u8]) -> Option<Descriptor>>(
    a: Store<B>,
    b: Store<B>,
    victims: Seq<u64>,
    decode: F,
    m: LiveMark,
    tree: RebuiltIndex,
    gone: Seq<u64>,
    replaced: Set<Seq<u8>>,
    h: nat,
)
    requires
        collected_whole(a, b, victims, decode, m, tree, gone, replaced, h),
        clash_free(b.objects().union(tree.payloads@)),
    ensures
        b.chunks() == kept_entries(m, a.chunks()),
{
    let u = b.objects().union(tree.payloads@);
    let f = a.config.max_fanout;
    lemma_clash_free_subset(a.objects(), a.objects().union(b.objects()));
    lemma_clash_free_subset(tree.payloads@, u);
    lemma_clash_free_subset(b.objects(), u);
    assert forall|x: Seq<u8>| #[trigger] tree.payloads@.contains(x) implies b.objects().contains(
        x,
    ) by {
        assert(digest_found(b.objects(), x));
        let y = choose|y: Seq<u8>| #[trigger] b.objects().contains(y) && digest(y) == digest(x);
        assert(u.contains(x) && u.contains(y));
    }
    assert(a.chunks_ok(h));
    let s = kept_entries(m, a.chunks());
    assert(lists(tree.payloads@, tree.root@, BTREE_ORDER, f, 65, s));
    lemma_lists_grows(tree.payloads@, b.objects(), tree.root@, f, 65, 65, s);
    lemma_listing(b.objects(), tree.root@, f, 65, s);
    assert(b.root@.chunk_index_root == tree.root@ && b.config == a.config);
}

} // verus!
