//! Reachability: what the current root and the snapshots reach.
//!
//! The mark walks from the roots through trees, inodes and descriptors. A place
//! in the walk is an object id and what is expected there; [`out_of`] says where
//! it leads.

use vstd::prelude::*;

use crate::bytes::copy_bytes;
use crate::chunk::{digest, zero_id, ChunkId};
use crate::descriptor::{chunks_of, decode_with, decoded, objects_of, steady, Descriptor};
use crate::error::StoreError;
use crate::fs::{object, BTREE_ORDER};
use crate::inode::{parse_inode, DataView, Inode, InodeData, InodeView};
use crate::io::IoBackend;
use crate::map::SortedMap;
use crate::node::{pairs, parse_node, Entry, Node, NodeView};
use crate::physical::IdSet;
use crate::root::{parse_root, Root, RootView};
use crate::snapshot::{parse_snapshot, SnapshotEntry};
use crate::sorted::has_key;
use crate::store::Store;
use crate::tree::clash_free;

verus! {

/// What is expected at a place of the walk.
#[derive(Debug, Clone, Copy, PartialEq, Eq, Structural)]
pub enum MarkKind {
    /// A filesystem root.
    Root,
    /// An inode.
    Inode,
    /// A node of the inode index.
    TreeInodeIndex,
    /// A node of a directory tree.
    TreeDirectory,
    /// A node of an extent tree.
    TreeExtent,
    /// A node of the chunk index.
    TreeChunkIndex,
    /// A node of the snapshot tree.
    TreeSnapshot,
    /// A node of an attribute tree.
    TreeXattr,
    /// A payload.
    Object,
}

/// A place of the walk.
pub type Place = (Seq<u8>, MarkKind);

// ---------------------------------------------------------------------------
// Where places lead
// ---------------------------------------------------------------------------

/// The places of ids, all of one kind.
pub open spec fn places(ids: Seq<ChunkId>, kind: MarkKind) -> Seq<Place> {
    Seq::new(ids.len(), |i: int| (ids[i]@, kind))
}

/// One place, unless the id is zero.
pub open spec fn unless_zero(id: Seq<u8>, kind: MarkKind) -> Seq<Place> {
    if id == zero_id() {
        Seq::empty()
    } else {
        seq![(id, kind)]
    }
}

/// Where a root leads.
pub open spec fn root_places(v: RootView) -> Seq<Place> {
    seq![
        (v.inode_index_root, MarkKind::TreeInodeIndex),
        (v.chunk_index_root, MarkKind::TreeChunkIndex),
    ] + unless_zero(v.snapshot_tree_root, MarkKind::TreeSnapshot) + unless_zero(
        v.model_index_root,
        MarkKind::TreeChunkIndex,
    )
}

/// Where an inode leads.
pub open spec fn inode_places(v: InodeView) -> Seq<Place> {
    unless_zero(v.xattr_root, MarkKind::TreeXattr) + match v.data {
        DataView::Directory { dir_root } => unless_zero(dir_root, MarkKind::TreeDirectory),
        DataView::File { extent_root } => unless_zero(extent_root, MarkKind::TreeExtent),
        _ => Seq::empty(),
    }
}

/// The objects of the descriptor in these bytes; bytes that do not decode name
/// none.
pub open spec fn descriptor_places<F: Fn(&[u8]) -> Option<Descriptor>>(
    bytes: Seq<u8>,
    decode: F,
) -> Seq<Place> {
    match decoded(decode, bytes) {
        Some(d) => places(objects_of(d.form), MarkKind::Object),
        None => Seq::empty(),
    }
}

/// Where the value of a leaf leads.
pub open spec fn value_places<F: Fn(&[u8]) -> Option<Descriptor>>(
    kind: MarkKind,
    value: Seq<u8>,
    decode: F,
) -> Option<Seq<Place>> {
    match kind {
        MarkKind::TreeInodeIndex => if value.len() == 32 {
            Some(seq![(value, MarkKind::Inode)])
        } else {
            None
        },
        MarkKind::TreeSnapshot => match parse_snapshot(value) {
            Ok(e) => Some(seq![(e.0, MarkKind::Root)]),
            Err(_) => None,
        },
        MarkKind::TreeExtent => Some(descriptor_places(value, decode)),
        _ => Some(Seq::empty()),
    }
}

/// Where the values of a leaf lead.
pub open spec fn leaf_places<F: Fn(&[u8]) -> Option<Descriptor>>(
    kind: MarkKind,
    entries: Seq<(Seq<u8>, Seq<u8>)>,
    decode: F,
) -> Option<Seq<Place>>
    decreases entries.len(),
{
    if entries.len() == 0 {
        Some(Seq::empty())
    } else {
        match (
            leaf_places(kind, entries.drop_last(), decode),
            value_places(kind, entries.last().1, decode),
        ) {
            (Some(a), Some(b)) => Some(a + b),
            _ => None,
        }
    }
}

/// Where a node leads.
pub open spec fn node_places<F: Fn(&[u8]) -> Option<Descriptor>>(
    kind: MarkKind,
    v: NodeView,
    decode: F,
) -> Option<Seq<Place>> {
    match v {
        NodeView::Internal { first, entries } => Some(
            seq![(first, kind)] + Seq::new(entries.len(), |i: int| (entries[i].1, kind)),
        ),
        NodeView::Leaf { entries } => leaf_places(kind, entries, decode),
    }
}

/// Where a place leads; nothing is said where the object is missing or is not what
/// is expected.
#[verifier::opaque]
pub open spec fn out_of<F: Fn(&[u8]) -> Option<Descriptor>>(
    p: Set<Seq<u8>>,
    fanout: u32,
    decode: F,
    x: Place,
) -> Option<Seq<Place>> {
    match x.1 {
        MarkKind::Object => Some(Seq::empty()),
        MarkKind::Root => match object(p, x.0) {
            Some(b) => match parse_root(b) {
                Ok(v) => Some(root_places(v)),
                Err(_) => None,
            },
            None => None,
        },
        MarkKind::Inode => match object(p, x.0) {
            Some(b) => match parse_inode(b) {
                Ok(v) => Some(inode_places(v)),
                Err(_) => None,
            },
            None => None,
        },
        _ => if x.0 == zero_id() {
            Some(Seq::empty())
        } else {
            match object(p, x.0) {
                Some(b) => match parse_node(b, BTREE_ORDER, fanout) {
                    Ok(v) => node_places(x.1, v, decode),
                    Err(_) => None,
                },
                None => None,
            }
        },
    }
}

/// The extent descriptors at a place.
#[verifier::opaque]
pub open spec fn descriptors_at(p: Set<Seq<u8>>, fanout: u32, x: Place) -> Seq<Seq<u8>> {
    if x.1 == MarkKind::TreeExtent && x.0 != zero_id() {
        match object(p, x.0) {
            Some(b) => match parse_node(b, BTREE_ORDER, fanout) {
                Ok(NodeView::Leaf { entries }) => Seq::new(
                    entries.len(),
                    |i: int| entries[i].1,
                ),
                _ => Seq::empty(),
            },
            None => Seq::empty(),
        }
    } else {
        Seq::empty()
    }
}

/// The views of places.
pub open spec fn place_views(v: Seq<(ChunkId, MarkKind)>) -> Seq<Place> {
    Seq::new(v.len(), |i: int| (v[i].0@, v[i].1))
}

pub open spec fn bytes_views(v: Seq<Vec<u8>>) -> Seq<Seq<u8>> {
    Seq::new(v.len(), |i: int| v[i]@)
}

proof fn lemma_place_push(v: Seq<(ChunkId, MarkKind)>, x: (ChunkId, MarkKind))
    ensures
        place_views(v.push(x)) == place_views(v).push((x.0@, x.1)),
{
    assert(place_views(v.push(x)) =~= place_views(v).push((x.0@, x.1)));
}

/// The places of the descriptor's objects.
fn descriptor_refs<F: Fn(&[u8]) -> Option<Descriptor>>(
    bytes: &[u8],
    decode: &F,
    out: &mut Vec<(ChunkId, MarkKind)>,
)
    requires
        steady(*decode),
    ensures
        place_views(final(out)@) == place_views(old(out)@) + descriptor_places(bytes@, *decode),
{
    let ghost had = place_views(out@);
    match decode_with(decode, bytes) {
        None => {
            assert(had + Seq::<Place>::empty() =~= had);
        },
        Some(d) => {
            let ids = d.objects();
            let mut i: usize = 0;
            assert(had + places(ids@, MarkKind::Object).take(0) =~= had);
            while i < ids.len()
                invariant
                    i <= ids@.len(),
                    place_views(out@) == had + places(ids@, MarkKind::Object).take(i as int),
                decreases ids@.len() - i,
            {
                let ghost before = out@;
                out.push((ids[i], MarkKind::Object));
                proof {
                    let all = places(ids@, MarkKind::Object);
                    lemma_place_push(before, (ids@[i as int], MarkKind::Object));
                    assert(all.take(i as int).push(all[i as int]) =~= all.take(i + 1));
                    assert((had + all.take(i as int)).push(all[i as int]) =~= had + all.take(i + 1));
                }
                i += 1;
            }
            assert(places(ids@, MarkKind::Object).take(i as int) =~= places(
                ids@,
                MarkKind::Object,
            ));
        },
    }
}

/// The places that the values of a leaf lead to.
#[verifier::rlimit(40)]
fn leaf_refs<F: Fn(&[u8]) -> Option<Descriptor>>(
    kind: MarkKind,
    entries: &Vec<Entry>,
    decode: &F,
) -> (r: Result<Vec<(ChunkId, MarkKind)>, StoreError>)
    requires
        steady(*decode),
    ensures
        match r {
            Ok(v) => leaf_places(kind, pairs(entries@), *decode) == Some(place_views(v@)),
            Err(_) => leaf_places(kind, pairs(entries@), *decode) is None,
        },
{
    let mut out: Vec<(ChunkId, MarkKind)> = Vec::new();
    let ghost es = pairs(entries@);
    let mut i: usize = 0;
    assert(es.take(0) =~= Seq::empty());
    assert(place_views(out@) =~= Seq::empty());
    while i < entries.len()
        invariant
            i <= entries@.len(),
            es == pairs(entries@),
            steady(*decode),
            leaf_places(kind, es.take(i as int), *decode) == Some(place_views(out@)),
        decreases entries@.len() - i,
    {
        let value = &entries[i].value;
        let ghost had = place_views(out@);
        proof {
            assert(es.take(i + 1).drop_last() =~= es.take(i as int));
            assert(es.take(i + 1).last() == es[i as int]);
        }
        match kind {
            MarkKind::TreeInodeIndex => {
                if value.len() != 32 {
                    proof {
                        lemma_leaf_stuck(kind, es, *decode, i + 1);
                    }
                    return Err(StoreError::Invariant("inode value not 32 bytes".to_string()));
                }
                out.push((ChunkId::from_slice(value), MarkKind::Inode));
                assert(place_views(out@) =~= had + seq![(value@, MarkKind::Inode)]);
            },
            MarkKind::TreeSnapshot => {
                match SnapshotEntry::decode(value) {
                    Ok(e) => {
                        out.push((e.root_id, MarkKind::Root));
                        assert(place_views(out@) =~= had + seq![(e.root_id@, MarkKind::Root)]);
                    },
                    Err(e) => {
                        proof {
                            lemma_leaf_stuck(kind, es, *decode, i + 1);
                        }
                        return Err(StoreError::descriptor(e));
                    },
                }
            },
            MarkKind::TreeExtent => {
                descriptor_refs(value, decode, &mut out);
            },
            _ => {
                assert(had + Seq::<Place>::empty() =~= had);
            },
        }
        i += 1;
    }
    assert(es.take(i as int) =~= es);
    Ok(out)
}

proof fn lemma_leaf_stuck<F: Fn(&[u8]) -> Option<Descriptor>>(
    kind: MarkKind,
    es: Seq<(Seq<u8>, Seq<u8>)>,
    decode: F,
    n: int,
)
    requires
        0 <= n <= es.len(),
        leaf_places(kind, es.take(n), decode) is None,
    ensures
        leaf_places(kind, es, decode) is None,
    decreases es.len() - n,
{
    if n < es.len() {
        assert(es.take(n + 1).drop_last() =~= es.take(n));
        lemma_leaf_stuck(kind, es, decode, n + 1);
    } else {
        assert(es.take(n) =~= es);
    }
}

fn child_refs(kind: MarkKind, first: ChunkId, entries: &Vec<Entry>) -> (r: Vec<
    (ChunkId, MarkKind),
>)
    requires
        forall|i: int| 0 <= i < entries@.len() ==> (#[trigger] entries@[i]).value@.len() == 32,
    ensures
        place_views(r@) == seq![(first@, kind)] + Seq::new(
            pairs(entries@).len(),
            |i: int| (pairs(entries@)[i].1, kind),
        ),
{
    let mut out: Vec<(ChunkId, MarkKind)> = Vec::new();
    out.push((first, kind));
    let ghost all = Seq::new(pairs(entries@).len(), |i: int| (pairs(entries@)[i].1, kind));
    let mut i: usize = 0;
    assert(place_views(out@) =~= seq![(first@, kind)] + all.take(0));
    while i < entries.len()
        invariant
            i <= entries@.len(),
            all == Seq::new(pairs(entries@).len(), |i: int| (pairs(entries@)[i].1, kind)),
            forall|i: int| 0 <= i < entries@.len() ==> (#[trigger] entries@[i]).value@.len() == 32,
            place_views(out@) == seq![(first@, kind)] + all.take(i as int),
        decreases entries@.len() - i,
    {
        assert(entries@[i as int].value@.len() == 32);
        let ghost before = out@;
        let child = ChunkId::from_slice(&entries[i].value);
        out.push((child, kind));
        proof {
            lemma_place_push(before, (child, kind));
            assert(all[i as int] == (child@, kind));
            assert((seq![(first@, kind)] + all.take(i as int)).push(all[i as int]) =~= seq![
                (first@, kind),
            ] + all.take(i + 1));
        }
        i += 1;
    }
    assert(all.take(i as int) =~= all);
    out
}

fn push_unless_zero(id: ChunkId, kind: MarkKind, out: &mut Vec<(ChunkId, MarkKind)>)
    ensures
        place_views(final(out)@) == place_views(old(out)@) + unless_zero(id@, kind),
{
    let ghost had = place_views(out@);
    if !id.is_zero() {
        out.push((id, kind));
    }
    assert(place_views(out@) =~= had + unless_zero(id@, kind));
}

/// What a place holds: where it leads, and the extent descriptors in it.
pub struct Visit {
    pub next: Vec<(ChunkId, MarkKind)>,
    pub descriptors: Vec<Vec<u8>>,
}

fn values_of(entries: &Vec<Entry>) -> (r: Vec<Vec<u8>>)
    ensures
        bytes_views(r@) == Seq::new(pairs(entries@).len(), |i: int| pairs(entries@)[i].1),
{
    let mut out: Vec<Vec<u8>> = Vec::new();
    let mut i: usize = 0;
    while i < entries.len()
        invariant
            i <= entries@.len(),
            out@.len() == i,
            forall|j: int| 0 <= j < i ==> (#[trigger] out@[j])@ == entries@[j].value@,
        decreases entries@.len() - i,
    {
        out.push(copy_bytes(&entries[i].value));
        i += 1;
    }
    assert(bytes_views(out@) =~= Seq::new(pairs(entries@).len(), |i: int| pairs(entries@)[i].1));
    out
}

/// An object that is there is indexed, and is the only one of its digest.
proof fn lemma_live_object<B: IoBackend>(st: Store<B>, b: Seq<u8>)
    requires
        st.wf(),
        st.objects().contains(b),
    ensures
        has_key(st.index@, digest(b)),
        clash_free(st.objects()) ==> object(st.objects(), digest(b)) == Some(b),
{
    let i = choose|i: int|
        0 <= i < st.index@.len() && crate::transaction::object_at(
            st.disk(),
            (#[trigger] st.index@[i]).1,
        ) == Some(b);
    assert(st.index@[i].0 == digest(b));
    crate::epoch::lemma_at(st.index@, i);
    crate::fs::lemma_has_key(st.index@, digest(b));
    if clash_free(st.objects()) {
        crate::fs::lemma_object(st.objects(), b);
    }
}

/// The object at a place of the walk has to be there.
fn fetch_live<B: IoBackend>(st: &Store<B>, id: &ChunkId) -> (r: Result<Vec<u8>, StoreError>)
    requires
        st.flushed(),
    ensures
        match r {
            Ok(b) => has_key(st.index@, id@) && (clash_free(st.objects()) ==> object(
                st.objects(),
                id@,
            ) == Some(b@)),
            Err(_) => !st.io.reliable() || object(st.objects(), id@) is None,
        },
{
    match st.fetch_object(id) {
        Err(e) => Err(e),
        Ok(None) => Err(StoreError::Invariant("missing object".to_string())),
        Ok(Some(b)) => {
            proof {
                lemma_live_object(*st, b@);
            }
            Ok(b)
        },
    }
}

/// Visit a place.
#[verifier::rlimit(60)]
#[verifier::spinoff_prover]
fn visit<B: IoBackend, F: Fn(&[u8]) -> Option<Descriptor>>(
    st: &Store<B>,
    id: &ChunkId,
    kind: MarkKind,
    decode: &F,
) -> (r: Result<Visit, StoreError>)
    requires
        st.flushed(),
        steady(*decode),
    ensures
        match r {
            Ok(v) => {
                &&& v.next@.len() > 0 ==> has_key(st.index@, id@)
                &&& clash_free(st.objects()) ==> out_of(st.objects(), st.config.max_fanout, *decode, (id@, kind)) == Some(
                    place_views(v.next@),
                )
                &&& clash_free(st.objects()) ==> bytes_views(v.descriptors@) == descriptors_at(
                    st.objects(),
                    st.config.max_fanout,
                    (id@, kind),
                )
            },
            Err(_) => st.io.reliable() && clash_free(st.objects()) ==> out_of(
                st.objects(),
                st.config.max_fanout,
                *decode,
                (id@, kind),
            ) is None,
        },
{
    reveal(out_of);
    reveal(descriptors_at);
    let mut next: Vec<(ChunkId, MarkKind)> = Vec::new();
    let mut descriptors: Vec<Vec<u8>> = Vec::new();
    assert(place_views(next@) =~= Seq::empty());
    assert(bytes_views(descriptors@) =~= Seq::empty());
    match kind {
        MarkKind::Object => {},
        MarkKind::Root => {
            let bytes = match fetch_live(st, id) {
                Ok(b) => b,
                Err(e) => return Err(e),
            };
            match Root::decode(&bytes) {
                Err(e) => return Err(StoreError::Superblock(e.describe())),
                Ok(root) => {
                    next.push((root.inode_index_root, MarkKind::TreeInodeIndex));
                    next.push((root.chunk_index_root, MarkKind::TreeChunkIndex));
                    assert(place_views(next@) =~= seq![
                        (root@.inode_index_root, MarkKind::TreeInodeIndex),
                        (root@.chunk_index_root, MarkKind::TreeChunkIndex),
                    ]);
                    push_unless_zero(root.snapshot_tree_root, MarkKind::TreeSnapshot, &mut next);
                    push_unless_zero(root.model_index_root, MarkKind::TreeChunkIndex, &mut next);
                },
            }
        },
        MarkKind::Inode => {
            let bytes = match fetch_live(st, id) {
                Ok(b) => b,
                Err(e) => return Err(e),
            };
            match Inode::decode(&bytes) {
                Err(e) => return Err(StoreError::descriptor(e)),
                Ok(inode) => {
                    push_unless_zero(inode.xattr_root, MarkKind::TreeXattr, &mut next);
                    assert(place_views(next@) =~= unless_zero(
                        inode@.xattr_root,
                        MarkKind::TreeXattr,
                    ));
                    match &inode.data {
                        InodeData::Directory { dir_root } => {
                            push_unless_zero(*dir_root, MarkKind::TreeDirectory, &mut next);
                        },
                        InodeData::File { extent_root } => {
                            push_unless_zero(*extent_root, MarkKind::TreeExtent, &mut next);
                        },
                        _ => {
                            assert(place_views(next@) + Seq::<Place>::empty() =~= place_views(
                                next@,
                            ));
                        },
                    }
                },
            }
        },
        _ => {
            if !id.is_zero() {
                let bytes = match fetch_live(st, id) {
                    Ok(b) => b,
                    Err(e) => return Err(e),
                };
                match Node::decode(&bytes, BTREE_ORDER, st.config.max_fanout) {
                    Err(e) => return Err(StoreError::descriptor(e)),
                    Ok(Node::Internal { first_child, entries }) => {
                        proof {
                            assert forall|i: int| 0 <= i < entries@.len() implies (
                            #[trigger] entries@[i]).value@.len() == 32 by {
                                assert(pairs(entries@)[i].1.len() == 32);
                            }
                        }
                        next = child_refs(kind, first_child, &entries);
                    },
                    Ok(Node::Leaf { entries }) => {
                        match leaf_refs(kind, &entries, decode) {
                            Ok(v) => {
                                next = v;
                            },
                            Err(e) => return Err(e),
                        }
                        if kind == MarkKind::TreeExtent {
                            descriptors = values_of(&entries);
                        }
                    },
                }
            }
        },
    }
    Ok(Visit { next, descriptors })
}

// ---------------------------------------------------------------------------
// Reachability
// ---------------------------------------------------------------------------

/// What the walk goes by: the objects, the nodes' fanout limit, the decoder.
pub struct Ground<F> {
    pub objects: Set<Seq<u8>>,
    pub fanout: u32,
    pub decode: F,
}

/// The place is reached from the roots in `n` steps.
pub open spec fn reach_in<F: Fn(&[u8]) -> Option<Descriptor>>(
    g: Ground<F>,
    roots: Seq<Place>,
    x: Place,
    n: nat,
) -> bool
    decreases n,
{
    if n == 0 {
        roots.contains(x)
    } else {
        exists|y: Place| #[trigger]
            leads(g, y, x) && reach_in(g, roots, y, (n - 1) as nat)
    }
}

/// One place leads to the other.
pub open spec fn leads<F: Fn(&[u8]) -> Option<Descriptor>>(
    g: Ground<F>,
    y: Place,
    x: Place,
) -> bool {
    out_of(g.objects, g.fanout, g.decode, y) matches Some(s) && s.contains(x)
}

/// The place is reached from the roots.
pub open spec fn reachable<F: Fn(&[u8]) -> Option<Descriptor>>(
    g: Ground<F>,
    roots: Seq<Place>,
    x: Place,
) -> bool {
    exists|n: nat| #[trigger] reach_in(g, roots, x, n)
}

pub proof fn lemma_reach_step<F: Fn(&[u8]) -> Option<Descriptor>>(
    g: Ground<F>,
    roots: Seq<Place>,
    y: Place,
    x: Place,
)
    requires
        reachable(g, roots, y),
        leads(g, y, x),
    ensures
        reachable(g, roots, x),
{
    let n = choose|n: nat| #[trigger] reach_in(g, roots, y, n);
    let m: nat = n + 1;
    assert((m - 1) as nat == n);
    assert(reach_in(g, roots, x, m));
}

/// The ids in a set.
pub open spec fn id_set(s: IdSet) -> Set<Seq<u8>> {
    Set::new(|id: Seq<u8>| has_key(s@, id))
}

/// The place is queued.
spec fn queued(work: Seq<(ChunkId, MarkKind)>, x: Place) -> bool {
    exists|i: int| 0 <= i < work.len() && (#[trigger] work[i]).0@ == x.0 && work[i].1 == x.1
}

/// A number for each kind.
pub open spec fn kind_code(k: MarkKind) -> u8 {
    match k {
        MarkKind::Root => 0,
        MarkKind::Inode => 1,
        MarkKind::TreeInodeIndex => 2,
        MarkKind::TreeDirectory => 3,
        MarkKind::TreeExtent => 4,
        MarkKind::TreeChunkIndex => 5,
        MarkKind::TreeSnapshot => 6,
        MarkKind::TreeXattr => 7,
        MarkKind::Object => 8,
    }
}

/// The kind of a number.
spec fn kind_at(c: int) -> MarkKind {
    if c == 0 {
        MarkKind::Root
    } else if c == 1 {
        MarkKind::Inode
    } else if c == 2 {
        MarkKind::TreeInodeIndex
    } else if c == 3 {
        MarkKind::TreeDirectory
    } else if c == 4 {
        MarkKind::TreeExtent
    } else if c == 5 {
        MarkKind::TreeChunkIndex
    } else if c == 6 {
        MarkKind::TreeSnapshot
    } else if c == 7 {
        MarkKind::TreeXattr
    } else {
        MarkKind::Object
    }
}

/// The key of a place among those visited: an id may be visited once in each kind.
pub open spec fn place_key(x: Place) -> Seq<u8> {
    x.0.push(kind_code(x.1))
}

/// The set holds the keys of these places.
spec fn holds_places(s: IdSet, done: Set<Place>) -> bool {
    forall|x: Place| id_set(s).contains(#[trigger] place_key(x)) == done.contains(x)
}

proof fn lemma_place_key(x: Place, y: Place)
    ensures
        place_key(x) == place_key(y) ==> x == y,
{
    if place_key(x) == place_key(y) {
        assert(place_key(x).drop_last() =~= x.0);
        assert(place_key(y).drop_last() =~= y.0);
        assert(place_key(x).last() == place_key(y).last());
    }
}

fn key_of_place(id: &ChunkId, kind: MarkKind) -> (r: Vec<u8>)
    ensures
        r@ == place_key((id@, kind)),
{
    let code: u8 = match kind {
        MarkKind::Root => 0,
        MarkKind::Inode => 1,
        MarkKind::TreeInodeIndex => 2,
        MarkKind::TreeDirectory => 3,
        MarkKind::TreeExtent => 4,
        MarkKind::TreeChunkIndex => 5,
        MarkKind::TreeSnapshot => 6,
        MarkKind::TreeXattr => 7,
        MarkKind::Object => 8,
    };
    let mut out = copy_bytes(id.as_slice());
    out.push(code);
    out
}

/// The walk so far: the places done are reached and of the right form, and every
/// place that they lead to is done or queued.
spec fn walking<F: Fn(&[u8]) -> Option<Descriptor>>(
    g: Ground<F>,
    roots: Seq<Place>,
    done: Set<Place>,
    live: Set<Seq<u8>>,
    work: Seq<(ChunkId, MarkKind)>,
) -> bool {
    &&& forall|x: Place| #[trigger]
        done.contains(x) ==> {
            &&& reachable(g, roots, x)
            &&& live.contains(x.0)
            &&& out_of(g.objects, g.fanout, g.decode, x) is Some
        }
    &&& forall|x: Place, y: Place|
        #![trigger done.contains(x), leads(g, x, y)]
        done.contains(x) && leads(g, x, y) ==> done.contains(y) || queued(work, y)
    &&& forall|id: Seq<u8>| #[trigger] live.contains(id) ==> exists|k: MarkKind| #[trigger]
        done.contains((id, k))
    &&& forall|i: int|
        0 <= i < work.len() ==> reachable(g, roots, ((#[trigger] work[i]).0@, work[i].1))
    &&& forall|i: int|
        0 <= i < roots.len() ==> done.contains(#[trigger] roots[i]) || queued(work, roots[i])
}

/// The walk is complete: the roots are done, every place done is reached, and so is every
/// place that it leads to; the ids marked are those of the places done.
pub open spec fn walked<F: Fn(&[u8]) -> Option<Descriptor>>(
    g: Ground<F>,
    roots: Seq<Place>,
    done: Set<Place>,
    live: Set<Seq<u8>>,
) -> bool {
    &&& forall|x: Place| #[trigger]
        done.contains(x) ==> {
            &&& reachable(g, roots, x)
            &&& live.contains(x.0)
            &&& out_of(g.objects, g.fanout, g.decode, x) is Some
        }
    &&& forall|x: Place, y: Place|
        #![trigger done.contains(x), leads(g, x, y)]
        done.contains(x) && leads(g, x, y) ==> done.contains(y)
    &&& forall|id: Seq<u8>| #[trigger] live.contains(id) ==> exists|k: MarkKind| #[trigger]
        done.contains((id, k))
    &&& forall|i: int| 0 <= i < roots.len() ==> done.contains(#[trigger] roots[i])
}

/// The descriptor in these bytes refers to the chunk.
pub open spec fn mentions<F: Fn(&[u8]) -> Option<Descriptor>>(decode: F, d: Seq<u8>, id: Seq<u8>) -> bool {
    decoded(decode, d) matches Some(e) && exists|i: int|
        0 <= i < chunks_of(e.form).len() && (#[trigger] chunks_of(e.form)[i])@ == id
}

/// What is noted are the extent descriptors of the places done, and the chunks
/// that these refer to.
pub open spec fn noted<F: Fn(&[u8]) -> Option<Descriptor>>(
    g: Ground<F>,
    done: Set<Place>,
    descriptors: Set<Seq<u8>>,
    referenced: Set<Seq<u8>>,
) -> bool {
    &&& forall|d: Seq<u8>| #[trigger] descriptors.contains(d) <==> described(g, done, d)
    &&& forall|id: Seq<u8>| #[trigger]
        referenced.contains(id) <==> exists|d: Seq<u8>| #[trigger]
            described(g, done, d) && mentions(g.decode, d, id)
}

/// A place done holds this extent descriptor.
pub open spec fn described<F: Fn(&[u8]) -> Option<Descriptor>>(
    g: Ground<F>,
    done: Set<Place>,
    d: Seq<u8>,
) -> bool {
    exists|x: Place| #[trigger]
        done.contains(x) && descriptors_at(g.objects, g.fanout, x).contains(d)
}

pub fn insert_id(set: &mut IdSet, id: Vec<u8>) -> (fresh: bool)
    requires
        old(set).wf(),
    ensures
        final(set).wf(),
        id_set(*final(set)) == id_set(*old(set)).insert(id@),
        fresh == !id_set(*old(set)).contains(id@),
{
    let ghost was = *set;
    let ghost k = id@;
    if set.contains(&id) {
        assert(id_set(*set) =~= id_set(was).insert(k));
        return false;
    }
    set.insert(id, ());
    proof {
        crate::epoch::lemma_upsert_at(was@, k, ());
        assert forall|q: Seq<u8>| #[trigger] id_set(*set).contains(q) == id_set(was).insert(
            k,
        ).contains(q) by {
            crate::fs::lemma_has_key(set@, q);
            crate::fs::lemma_has_key(was@, q);
        }
        assert(id_set(*set) =~= id_set(was).insert(k));
    }
    true
}

/// Note the descriptors of a place.
fn note<F: Fn(&[u8]) -> Option<Descriptor>>(
    found: Vec<Vec<u8>>,
    decode: &F,
    descriptors: &mut IdSet,
    referenced: &mut IdSet,
)
    requires
        old(descriptors).wf(),
        old(referenced).wf(),
        steady(*decode),
    ensures
        final(descriptors).wf(),
        final(referenced).wf(),
        forall|d: Seq<u8>| #[trigger]
            id_set(*final(descriptors)).contains(d) <==> id_set(*old(descriptors)).contains(d)
                || bytes_views(found@).contains(d),
        forall|id: Seq<u8>| #[trigger]
            id_set(*final(referenced)).contains(id) <==> id_set(*old(referenced)).contains(id)
                || exists|i: int|
                0 <= i < found@.len() && mentions(*decode, (#[trigger] found@[i])@, id),
{
    let ghost d0 = id_set(*descriptors);
    let ghost r0 = id_set(*referenced);
    let mut i: usize = 0;
    while i < found.len()
        invariant
            i <= found@.len(),
            descriptors.wf(),
            referenced.wf(),
            steady(*decode),
            forall|d: Seq<u8>| #[trigger]
                id_set(*descriptors).contains(d) <==> d0.contains(d) || exists|j: int|
                    0 <= j < i && (#[trigger] found@[j])@ == d,
            forall|id: Seq<u8>| #[trigger]
                id_set(*referenced).contains(id) <==> r0.contains(id) || exists|j: int|
                    0 <= j < i && mentions(*decode, (#[trigger] found@[j])@, id),
        decreases found@.len() - i,
    {
        let ghost ri = id_set(*referenced);
        let ghost di = id_set(*descriptors);
        let ghost bytes = found@[i as int]@;
        match decode_with(decode, &found[i]) {
            None => {
                assert forall|id: Seq<u8>| !mentions(*decode, bytes, id) by {}
            },
            Some(d) => {
                let ids = d.chunks();
                let mut k: usize = 0;
                while k < ids.len()
                    invariant
                        k <= ids@.len(),
                        referenced.wf(),
                        forall|id: Seq<u8>| #[trigger]
                            id_set(*referenced).contains(id) <==> ri.contains(id) || exists|j: int|
                                0 <= j < k && (#[trigger] ids@[j])@ == id,
                    decreases ids@.len() - k,
                {
                    let ghost rk = id_set(*referenced);
                    let _ = insert_id(referenced, copy_bytes(ids[k].as_slice()));
                    proof {
                        assert forall|id: Seq<u8>| #[trigger]
                            id_set(*referenced).contains(id) <==> ri.contains(id) || exists|j: int|
                                0 <= j < k + 1 && (#[trigger] ids@[j])@ == id by {
                            assert(ids@[k as int]@ == ids@[k as int]@);
                            if rk.contains(id) && !ri.contains(id) {
                                let j = choose|j: int| 0 <= j < k && (#[trigger] ids@[j])@ == id;
                                assert(ids@[j]@ == id);
                            }
                        }
                    }
                    k += 1;
                }
                assert forall|id: Seq<u8>| mentions(*decode, bytes, id) == exists|j: int|
                    0 <= j < ids@.len() && (#[trigger] ids@[j])@ == id by {}
            },
        }
        let _ = insert_id(descriptors, copy_bytes(&found[i]));
        proof {
            assert forall|d: Seq<u8>| #[trigger]
                id_set(*descriptors).contains(d) <==> d0.contains(d) || exists|j: int|
                    0 <= j < i + 1 && (#[trigger] found@[j])@ == d by {
                assert(found@[i as int]@ == bytes);
                if di.contains(d) && !d0.contains(d) {
                    let j = choose|j: int| 0 <= j < i && (#[trigger] found@[j])@ == d;
                    assert(found@[j]@ == d);
                }
            }
            assert forall|id: Seq<u8>| #[trigger]
                id_set(*referenced).contains(id) <==> r0.contains(id) || exists|j: int|
                    0 <= j < i + 1 && mentions(*decode, (#[trigger] found@[j])@, id) by {
                assert(found@[i as int]@ == bytes);
                if ri.contains(id) && !r0.contains(id) {
                    let j = choose|j: int|
                        0 <= j < i && mentions(*decode, (#[trigger] found@[j])@, id);
                    assert(found@[j]@ == found@[j]@);
                }
            }
        }
        i += 1;
    }
    proof {
        assert forall|d: Seq<u8>| #[trigger]
            id_set(*descriptors).contains(d) <==> d0.contains(d) || bytes_views(found@).contains(
                d,
            ) by {
            if bytes_views(found@).contains(d) {
                let j = choose|j: int|
                    0 <= j < bytes_views(found@).len() && bytes_views(found@)[j] == d;
                assert(found@[j]@ == d);
            }
            if id_set(*descriptors).contains(d) && !d0.contains(d) {
                let j = choose|j: int| 0 <= j < found@.len() && (#[trigger] found@[j])@ == d;
                assert(bytes_views(found@)[j] == d);
            }
        }
    }
}

// ---------------------------------------------------------------------------
// The mark
// ---------------------------------------------------------------------------

/// The keys of the index.
pub open spec fn key_set<V>(s: Seq<(Seq<u8>, V)>) -> Set<Seq<u8>> {
    s.map_values(|e: (Seq<u8>, V)| e.0).to_set()
}

pub proof fn lemma_key_set<V>(s: Seq<(Seq<u8>, V)>)
    ensures
        key_set(s).finite(),
        forall|k: Seq<u8>| has_key(s, k) ==> #[trigger] key_set(s).contains(k),
{
    let ks = s.map_values(|e: (Seq<u8>, V)| e.0);
    vstd::seq_lib::seq_to_set_is_finite(ks);
    assert forall|k: Seq<u8>| has_key(s, k) implies #[trigger] key_set(s).contains(k) by {
        let i = choose|i: int| 0 <= i < s.len() && (#[trigger] s[i]).0 == k;
        assert(ks[i] == k);
    }
}

/// Every key of the index, in every kind.
spec fn spot_seq<V>(s: Seq<(Seq<u8>, V)>) -> Seq<Place> {
    Seq::new(9 * s.len(), |i: int| (s[i / 9].0, kind_at(i % 9)))
}

spec fn spots<V>(s: Seq<(Seq<u8>, V)>) -> Set<Place> {
    spot_seq(s).to_set()
}

proof fn lemma_spots<V>(s: Seq<(Seq<u8>, V)>)
    ensures
        spots(s).finite(),
        forall|x: Place| has_key(s, x.0) ==> #[trigger] spots(s).contains(x),
{
    let all = spot_seq(s);
    vstd::seq_lib::seq_to_set_is_finite(all);
    assert forall|x: Place| has_key(s, x.0) implies #[trigger] spots(s).contains(x) by {
        let j = choose|j: int| 0 <= j < s.len() && (#[trigger] s[j]).0 == x.0;
        let i = 9 * j + kind_code(x.1) as int;
        assert(i / 9 == j && i % 9 == kind_code(x.1) as int);
        assert(all[i] == x);
    }
}

/// One step of the walk.
proof fn lemma_walk_step<F: Fn(&[u8]) -> Option<Descriptor>>(
    g: Ground<F>,
    roots: Seq<Place>,
    done: Set<Place>,
    live: Set<Seq<u8>>,
    work: Seq<(ChunkId, MarkKind)>,
    next: Seq<(ChunkId, MarkKind)>,
)
    requires
        work.len() > 0,
        walking(g, roots, done, live, work),
        out_of(g.objects, g.fanout, g.decode, (work.last().0@, work.last().1)) == Some(
            place_views(next),
        ),
    ensures
        walking(
            g,
            roots,
            done.insert((work.last().0@, work.last().1)),
            live.insert(work.last().0@),
            work.drop_last() + next,
        ),
{
    let top = (work.last().0@, work.last().1);
    let d = done.insert(top);
    let l = live.insert(top.0);
    let w = work.drop_last() + next;
    assert(reachable(g, roots, top));
    assert forall|q: Place| queued(work, q) implies d.contains(q) || queued(w, q) by {
        let i = choose|i: int|
            0 <= i < work.len() && (#[trigger] work[i]).0@ == q.0 && work[i].1 == q.1;
        if i < work.len() - 1 {
            assert(w[i].0@ == q.0 && w[i].1 == q.1);
        }
    }
    assert forall|x: Place, y: Place|
        #![trigger d.contains(x), leads(g, x, y)]
        d.contains(x) && leads(g, x, y) implies d.contains(y) || queued(w, y) by {
        if x == top {
            let i = choose|i: int| 0 <= i < place_views(next).len() && place_views(next)[i] == y;
            assert(w[work.len() - 1 + i].0@ == y.0 && w[work.len() - 1 + i].1 == y.1);
        } else {
            assert(done.contains(x));
            assert(done.contains(y) || queued(work, y));
        }
    }
    assert forall|id: Seq<u8>| #[trigger] l.contains(id) implies exists|k: MarkKind| #[trigger]
        d.contains((id, k)) by {
        if live.contains(id) {
            let k = choose|k: MarkKind| #[trigger] done.contains((id, k));
            assert(d.contains((id, k)));
        } else {
            assert(d.contains((id, top.1)));
        }
    }
    assert forall|i: int| 0 <= i < w.len() implies reachable(
        g,
        roots,
        ((#[trigger] w[i]).0@, w[i].1),
    ) by {
        if i < work.len() - 1 {
            assert(w[i] == work[i]);
        } else {
            let y = (w[i].0@, w[i].1);
            assert(place_views(next)[i - (work.len() - 1)] == y);
            assert(leads(g, top, y));
            lemma_reach_step(g, roots, top, y);
        }
    }
    assert forall|i: int| 0 <= i < roots.len() implies d.contains(#[trigger] roots[i]) || queued(
        w,
        roots[i],
    ) by {
        assert(done.contains(roots[i]) || queued(work, roots[i]));
    }
}

/// A place that is done already is passed over.
proof fn lemma_walk_skip<F: Fn(&[u8]) -> Option<Descriptor>>(
    g: Ground<F>,
    roots: Seq<Place>,
    done: Set<Place>,
    live: Set<Seq<u8>>,
    work: Seq<(ChunkId, MarkKind)>,
)
    requires
        work.len() > 0,
        walking(g, roots, done, live, work),
        done.contains((work.last().0@, work.last().1)),
    ensures
        walking(g, roots, done, live, work.drop_last()),
{
    let w = work.drop_last();
    assert forall|q: Place| queued(work, q) implies done.contains(q) || queued(w, q) by {
        let i = choose|i: int|
            0 <= i < work.len() && (#[trigger] work[i]).0@ == q.0 && work[i].1 == q.1;
        if i < work.len() - 1 {
            assert(w[i].0@ == q.0 && w[i].1 == q.1);
        }
    }
    assert forall|i: int| 0 <= i < w.len() implies reachable(
        g,
        roots,
        ((#[trigger] w[i]).0@, w[i].1),
    ) by {
        assert(w[i] == work[i]);
    }
    assert forall|x: Place, y: Place|
        #![trigger done.contains(x), leads(g, x, y)]
        done.contains(x) && leads(g, x, y) implies done.contains(y) || queued(w, y) by {
        assert(done.contains(y) || queued(work, y));
    }
    assert forall|i: int| 0 <= i < roots.len() implies done.contains(#[trigger] roots[i]) || queued(
        w,
        roots[i],
    ) by {
        assert(done.contains(roots[i]) || queued(work, roots[i]));
    }
}

/// What is noted after one more place.
proof fn lemma_noted_step<F: Fn(&[u8]) -> Option<Descriptor>>(
    g: Ground<F>,
    done: Set<Place>,
    x: Place,
    d0: Set<Seq<u8>>,
    r0: Set<Seq<u8>>,
    d1: Set<Seq<u8>>,
    r1: Set<Seq<u8>>,
    found: Seq<Seq<u8>>,
)
    requires
        noted(g, done, d0, r0),
        found == descriptors_at(g.objects, g.fanout, x),
        forall|d: Seq<u8>| #[trigger]
            d1.contains(d) <==> d0.contains(d) || found.contains(d),
        forall|id: Seq<u8>| #[trigger]
            r1.contains(id) <==> r0.contains(id) || exists|i: int|
                0 <= i < found.len() && mentions(g.decode, #[trigger] found[i], id),
    ensures
        noted(g, done.insert(x), d1, r1),
{
    let now = done.insert(x);
    assert forall|d: Seq<u8>| #[trigger] described(g, now, d) <==> described(g, done, d)
        || found.contains(d) by {
        if described(g, done, d) {
            let y = choose|y: Place| #[trigger]
                done.contains(y) && descriptors_at(g.objects, g.fanout, y).contains(d);
            assert(now.contains(y));
        }
        if found.contains(d) {
            assert(now.contains(x));
        }
        if described(g, now, d) {
            let y = choose|y: Place| #[trigger]
                now.contains(y) && descriptors_at(g.objects, g.fanout, y).contains(d);
            if y != x {
                assert(done.contains(y));
            }
        }
    }
    assert forall|id: Seq<u8>| #[trigger] r1.contains(id) <==> exists|d: Seq<u8>| #[trigger]
        described(g, now, d) && mentions(g.decode, d, id) by {
        if r0.contains(id) {
            let d = choose|d: Seq<u8>| #[trigger]
                described(g, done, d) && mentions(g.decode, d, id);
            assert(described(g, now, d));
        } else if r1.contains(id) {
            let i = choose|i: int|
                0 <= i < found.len() && mentions(g.decode, #[trigger] found[i], id);
            assert(found.contains(found[i]));
            assert(described(g, now, found[i]));
        }
        if exists|d: Seq<u8>| #[trigger]
            described(g, now, d) && mentions(g.decode, d, id) {
            let d = choose|d: Seq<u8>| #[trigger]
                described(g, now, d) && mentions(g.decode, d, id);
            if found.contains(d) {
                let i = choose|i: int| 0 <= i < found.len() && found[i] == d;
                assert(mentions(g.decode, found[i], id));
            } else {
                assert(described(g, done, d));
            }
        }
    }
}

/// What a walk marks.
pub struct Walk {
    /// The ids marked.
    pub live: IdSet,
    /// The extent descriptors met.
    pub descriptors: IdSet,
    /// The chunks that they refer to.
    pub referenced: IdSet,
    /// The places visited.
    pub done: Ghost<Set<Place>>,
}

/// Walk from the roots.
#[verifier::rlimit(60)]
#[verifier::spinoff_prover]
pub fn walk_from<B: IoBackend, F: Fn(&[u8]) -> Option<Descriptor>>(
    st: &Store<B>,
    roots: Vec<(ChunkId, MarkKind)>,
    decode: &F,
) -> (r: Result<Walk, StoreError>)
    requires
        st.flushed(),
        steady(*decode),
    ensures
        match r {
            Ok(w) => {
                let g = (Ground {
                    objects: st.objects(),
                    fanout: st.config.max_fanout,
                    decode: *decode,
                });
                &&& w.live.wf() && w.descriptors.wf() && w.referenced.wf()
                &&& clash_free(st.objects()) ==> {
                    &&& walked(g, place_views(roots@), w.done@, id_set(w.live))
                    &&& noted(g, w.done@, id_set(w.descriptors), id_set(w.referenced))
                }
            },
            Err(_) => {
                let g = (Ground {
                    objects: st.objects(),
                    fanout: st.config.max_fanout,
                    decode: *decode,
                });
                st.io.reliable() && clash_free(st.objects()) ==> exists|x: Place| #[trigger]
                    reachable(g, place_views(roots@), x) && out_of(
                        g.objects,
                        g.fanout,
                        g.decode,
                        x,
                    ) is None
            },
        },
{
    let ghost g = Ground {
        objects: st.objects(),
        fanout: st.config.max_fanout,
        decode: *decode,
    };
    let ghost rs = place_views(roots@);
    let ghost fine = clash_free(st.objects());
    let ghost keys = spots(st.index@);
    let mut visited: IdSet = SortedMap::new();
    let mut live: IdSet = SortedMap::new();
    let mut descriptors: IdSet = SortedMap::new();
    let mut referenced: IdSet = SortedMap::new();
    let mut work = roots;
    let ghost mut done: Set<Place> = Set::empty();
    proof {
        lemma_spots(st.index@);
        assert(id_set(visited) =~= Set::empty());
        assert(id_set(live) =~= Set::empty());
        assert(id_set(descriptors) =~= Set::empty());
        assert(id_set(referenced) =~= Set::empty());
        assert forall|i: int| 0 <= i < work@.len() implies reachable(
            g,
            rs,
            ((#[trigger] work@[i]).0@, work@[i].1),
        ) by {
            assert(rs[i] == (work@[i].0@, work@[i].1));
            assert(reach_in(g, rs, rs[i], 0));
        }
        assert forall|i: int| 0 <= i < rs.len() implies queued(work@, #[trigger] rs[i]) by {
            assert(work@[i].0@ == rs[i].0 && work@[i].1 == rs[i].1);
        }
    }
    while work.len() > 0
        invariant
            st.flushed(),
            steady(*decode),
            g == (Ground {
                objects: st.objects(),
                fanout: st.config.max_fanout,
                decode: *decode,
            }),
            rs == place_views(roots@),
            fine == clash_free(st.objects()),
            keys == spots(st.index@),
            keys.finite(),
            forall|x: Place| has_key(st.index@, x.0) ==> #[trigger] keys.contains(x),
            visited.wf(),
            holds_places(visited, done),
            live.wf(),
            descriptors.wf(),
            referenced.wf(),
            fine ==> walking(g, rs, done, id_set(live), work@),
            fine ==> noted(g, done, id_set(descriptors), id_set(referenced)),
        decreases keys.difference(done).len(), work@.len(),
    {
        let ghost was = work@;
        let ghost l0 = id_set(live);
        let ghost d0 = id_set(descriptors);
        let ghost r0 = id_set(referenced);
        let (id, kind) = match work.pop() {
            Some(x) => x,
            None => return Err(StoreError::Invariant("empty worklist".to_string())),
        };
        assert(work@ =~= was.drop_last());
        let ghost top = (id@, kind);
        let ghost before_done = done;
        let key = key_of_place(&id, kind);
        if visited.contains(&key) {
            proof {
                if fine {
                    lemma_walk_skip(g, rs, done, l0, was);
                }
            }
            continue;
        }
        let v = match visit(st, &id, kind, decode) {
            Ok(v) => v,
            Err(e) => {
                proof {
                    if fine && st.io.reliable() {
                        assert(reachable(g, rs, (was.last().0@, was.last().1)));
                    }
                }
                return Err(e);
            },
        };
        let ghost v0 = id_set(visited);
        let _ = insert_id(&mut visited, key);
        let _ = insert_id(&mut live, copy_bytes(id.as_slice()));
        let ghost found = bytes_views(v.descriptors@);
        let ghost vs = v.descriptors@;
        note(v.descriptors, decode, &mut descriptors, &mut referenced);
        let mut next = v.next;
        let ghost added = next@;
        work.append(&mut next);
        proof {
            assert(work@ =~= was.drop_last() + added);
            if fine {
                lemma_walk_step(g, rs, done, l0, was, added);
                assert forall|i: Seq<u8>| #[trigger]
                    id_set(referenced).contains(i) <==> r0.contains(i) || exists|j: int|
                        0 <= j < found.len() && mentions(g.decode, #[trigger] found[j], i) by {
                    if exists|j: int|
                        0 <= j < vs.len() && mentions(*decode, (#[trigger] vs[j])@, i) {
                        let j = choose|j: int|
                            0 <= j < vs.len() && mentions(*decode, (#[trigger] vs[j])@, i);
                        assert(mentions(g.decode, found[j], i));
                    }
                    if exists|j: int|
                        0 <= j < found.len() && mentions(g.decode, #[trigger] found[j], i) {
                        let j = choose|j: int|
                            0 <= j < found.len() && mentions(g.decode, #[trigger] found[j], i);
                        assert(mentions(*decode, vs[j]@, i));
                    }
                }
                lemma_noted_step(
                    g,
                    done,
                    top,
                    d0,
                    r0,
                    id_set(descriptors),
                    id_set(referenced),
                    found,
                );
            }
            done = done.insert(top);
            assert forall|x: Place| id_set(visited).contains(#[trigger] place_key(x))
                == done.contains(x) by {
                lemma_place_key(x, top);
                assert(v0.contains(place_key(x)) == before_done.contains(x));
            }
            let before = keys.difference(before_done);
            let after = keys.difference(done);
            if keys.contains(top) {
                assert(after =~= before.remove(top));
                assert(before.contains(top)) by {
                    assert(v0.contains(place_key(top)) == before_done.contains(top));
                }
            } else {
                assert(after =~= before);
                assert(added.len() == 0);
            }
        }
    }
    proof {
        if fine {
            assert(walked(g, rs, done, id_set(live))) by {
                assert forall|x: Place, y: Place|
                    #![trigger done.contains(x), leads(g, x, y)]
                    done.contains(x) && leads(g, x, y) implies done.contains(y) by {
                    assert(!queued(work@, y));
                }
                assert forall|i: int| 0 <= i < rs.len() implies done.contains(#[trigger] rs[i]) by {
                    assert(!queued(work@, rs[i]));
                }
            }
        }
    }
    Ok(Walk { live, descriptors, referenced, done: Ghost(done) })
}

} // verus!
