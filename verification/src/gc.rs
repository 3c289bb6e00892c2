//! Collection: marking what the roots reach, choosing what to copy and what to
//! drop, and compacting segments.

use vstd::prelude::*;

use crate::bytes::copy_bytes;
use crate::chunk::{digest, ChunkId};
use crate::descriptor::{decode_with, decoded, objects_of, steady, Descriptor, Form};
use crate::epoch::lemma_upsert_at;
use crate::error::StoreError;
use crate::fs::{lemma_has_key, listing, tree_ok, BTREE_ORDER};
use crate::index::{self, pair_views, ObjectProvider};
use crate::io::{file_of, IoBackend};
use crate::journal::lemma_begun;
use crate::map::SortedMap;
use crate::object::{Location, ObjectIndex};
use crate::overlay::lemma_lookup_take;
use crate::physical::{accounted, saturated, scan_physical, totalled, IdSet, PhysicalReport};
use crate::reach::{id_set, insert_id, leads, noted, out_of, place_views, reach_in, reachable,
    walk_from, walked, Ground, MarkKind, Place};
use crate::record::HEADER_SIZE;
use crate::root::root_bytes;
use crate::segment::scan_of;
use crate::snapshot::{self, parse_snapshot, snapshots_decode};
use crate::sorted::{lookup, rank, sorted};
use crate::store::Store;
use crate::tree::{clash_free, lists, max_height};
use crate::version::RecordTag;

verus! {

// ---------------------------------------------------------------------------
// Reference chains
// ---------------------------------------------------------------------------

/// The chunk that a chunk's descriptor hangs on: the target of a reference, or the
/// base of a residual.
pub open spec fn follows<F: Fn(&[u8]) -> Option<Descriptor>>(
    chunks: Seq<(Seq<u8>, Vec<u8>)>,
    decode: F,
    cid: Seq<u8>,
) -> Option<Seq<u8>> {
    match lookup(chunks, cid) {
        Some(b) => match decoded(decode, b@) {
            Some(d) => match d.form {
                Form::ExactRef { target } => Some(target@),
                Form::BaseResidual { base, .. } => Some(base@),
                _ => None,
            },
            None => None,
        },
        None => None,
    }
}

/// The chunk is at the end of a chain of `n` links from the start.
pub open spec fn chain_in<F: Fn(&[u8]) -> Option<Descriptor>>(
    chunks: Seq<(Seq<u8>, Vec<u8>)>,
    decode: F,
    start: Set<Seq<u8>>,
    cid: Seq<u8>,
    n: nat,
) -> bool
    decreases n,
{
    if n == 0 {
        start.contains(cid)
    } else {
        exists|y: Seq<u8>|
            #[trigger] follows(chunks, decode, y) == Some(cid) && chain_in(
                chunks,
                decode,
                start,
                y,
                (n - 1) as nat,
            )
    }
}

/// The closure of the start under the chains.
pub open spec fn chained<F: Fn(&[u8]) -> Option<Descriptor>>(
    chunks: Seq<(Seq<u8>, Vec<u8>)>,
    decode: F,
    start: Set<Seq<u8>>,
    seen: Set<Seq<u8>>,
) -> bool {
    &&& start.subset_of(seen)
    &&& forall|c: Seq<u8>|
        seen.contains(c) ==> (#[trigger] follows(chunks, decode, c) matches Some(n)
            ==> seen.contains(n))
    &&& forall|c: Seq<u8>| #[trigger]
        seen.contains(c) ==> on_chain(chunks, decode, start, c)
}

/// The chunk is at the end of some chain from the start.
pub open spec fn on_chain<F: Fn(&[u8]) -> Option<Descriptor>>(
    chunks: Seq<(Seq<u8>, Vec<u8>)>,
    decode: F,
    start: Set<Seq<u8>>,
    c: Seq<u8>,
) -> bool {
    exists|n: nat| #[trigger] chain_in(chunks, decode, start, c, n)
}

/// An object of the descriptor of a chunk of the set.
pub open spec fn chunk_object<F: Fn(&[u8]) -> Option<Descriptor>>(
    chunks: Seq<(Seq<u8>, Vec<u8>)>,
    decode: F,
    seen: Set<Seq<u8>>,
    id: Seq<u8>,
) -> bool {
    exists|c: Seq<u8>| #[trigger] seen.contains(c) && object_of_chunk(chunks, decode, c, id)
}

/// An object of the descriptor of the chunk.
pub open spec fn object_of_chunk<F: Fn(&[u8]) -> Option<Descriptor>>(
    chunks: Seq<(Seq<u8>, Vec<u8>)>,
    decode: F,
    c: Seq<u8>,
    id: Seq<u8>,
) -> bool {
    lookup(chunks, c) matches Some(b) && (decoded(decode, b@) matches Some(d) && exists|i: int|
        0 <= i < objects_of(d.form).len() && (#[trigger] objects_of(d.form)[i])@ == id)
}

proof fn lemma_chain_step<F: Fn(&[u8]) -> Option<Descriptor>>(
    chunks: Seq<(Seq<u8>, Vec<u8>)>,
    decode: F,
    start: Set<Seq<u8>>,
    y: Seq<u8>,
    x: Seq<u8>,
)
    requires
        on_chain(chunks, decode, start, y),
        follows(chunks, decode, y) == Some(x),
    ensures
        on_chain(chunks, decode, start, x),
{
    let n = choose|n: nat| #[trigger] chain_in(chunks, decode, start, y, n);
    let m: nat = n + 1;
    assert((m - 1) as nat == n);
    assert(chain_in(chunks, decode, start, x, m));
}

/// The committed chunk index, in memory.
fn load_chunks<B: IoBackend>(st: &Store<B>) -> (r: Result<SortedMap<Vec<u8>>, StoreError>)
    requires
        st.flushed(),
    ensures
        r matches Ok(m) ==> m.wf(),
        forall|h: nat| #[trigger]
            st.chunks_ok(h) && clash_free(st.objects()) && st.chunks().len() <= usize::MAX ==> match r {
                Ok(m) => forall|k: Seq<u8>|
                    match #[trigger] lookup(m@, k) {
                        Some(b) => lookup(st.chunks(), k) == Some(b@),
                        None => lookup(st.chunks(), k) is None,
                    },
                Err(_) => !st.io.reliable() || h > max_height(),
            },
{
    let tx = st.begin_tx();
    proof {
        lemma_begun(*st, tx);
    }
    let ghost s = st.chunks();
    let out = match index::scan_all(
        st.root.chunk_index_root,
        BTREE_ORDER,
        st.config.max_fanout,
        &tx.objects,
    ) {
        Ok(v) => v,
        Err(e) => {
            return Err(StoreError::index(e));
        },
    };
    let ghost good = clash_free(st.objects()) && s.len() <= usize::MAX && exists|h: nat| #[trigger]
        st.chunks_ok(h);
    proof {
        if good {
            let h = choose|h: nat| #[trigger] st.chunks_ok(h);
            assert(tree_ok(tx.objects.payloads(), st.root@.chunk_index_root, st.config.max_fanout, h));
            crate::fs::lemma_tree_sorted(
                st.objects(),
                st.root@.chunk_index_root,
                st.config.max_fanout,
                h,
            );
            assert(pair_views(out@) == s);
        }
    }
    let mut m: SortedMap<Vec<u8>> = SortedMap::new();
    let mut i: usize = 0;
    proof {
        assert forall|q: Seq<u8>| #[trigger] lookup(m@, q) is None && lookup(s.take(0), q) is None by {
            assert(rank(m@, q) == 0);
            assert(rank(s.take(0), q) == 0);
        }
    }
    while i < out.len()
        invariant
            i <= out@.len(),
            m.wf(),
            good ==> sorted(s) && pair_views(out@) == s,
            good ==> forall|k: Seq<u8>|
                match #[trigger] lookup(m@, k) {
                    Some(b) => lookup(s.take(i as int), k) == Some(b@),
                    None => lookup(s.take(i as int), k) is None,
                },
        decreases out@.len() - i,
    {
        let ghost had = m@;
        let value = copy_bytes(&out[i].1);
        let ghost vv = value;
        m.insert(copy_bytes(&out[i].0), value);
        proof {
            lemma_upsert_at(had, out@[i as int].0@, vv);
            if good {
                assert(s[i as int] == (out@[i as int].0@, out@[i as int].1@));
                assert forall|k: Seq<u8>| (match #[trigger] lookup(m@, k) {
                    Some(b) => lookup(s.take(i + 1), k) == Some(b@),
                    None => lookup(s.take(i + 1), k) is None,
                }) by {
                    lemma_lookup_take(s, i as int, k);
                    let _ = lookup(had, k);
                }
            }
        }
        i += 1;
    }
    proof {
        if good {
            assert(s.take(i as int) =~= s);
        }
    }
    Ok(m)
}

/// Mark the objects of a descriptor.
fn mark_objects(d: &Descriptor, live: &mut IdSet)
    requires
        old(live).wf(),
    ensures
        final(live).wf(),
        forall|id: Seq<u8>| #[trigger]
            id_set(*final(live)).contains(id) <==> id_set(*old(live)).contains(id) || exists|i: int|
                0 <= i < objects_of(d.form).len() && (#[trigger] objects_of(d.form)[i])@ == id,
{
    let ghost l0 = id_set(*live);
    let ids = d.objects();
    let mut k: usize = 0;
    while k < ids.len()
        invariant
            k <= ids@.len(),
            live.wf(),
            forall|id: Seq<u8>| #[trigger]
                id_set(*live).contains(id) <==> l0.contains(id) || exists|j: int|
                    0 <= j < k && (#[trigger] ids@[j])@ == id,
        decreases ids@.len() - k,
    {
        let ghost lk = id_set(*live);
        let _ = insert_id(live, copy_bytes(ids[k].as_slice()));
        proof {
            assert forall|id: Seq<u8>| #[trigger]
                id_set(*live).contains(id) <==> l0.contains(id) || exists|j: int|
                    0 <= j < k + 1 && (#[trigger] ids@[j])@ == id by {
                assert(ids@[k as int]@ == ids@[k as int]@);
                if lk.contains(id) && !l0.contains(id) {
                    let j = choose|j: int| 0 <= j < k && (#[trigger] ids@[j])@ == id;
                    assert(ids@[j]@ == id);
                }
            }
        }
        k += 1;
    }
}

/// Resolve the reference chains: the closure of the referenced chunks, each of
/// whose objects is marked.
#[verifier::rlimit(60)]
#[verifier::spinoff_prover]
pub fn resolve_chains<F: Fn(&[u8]) -> Option<Descriptor>>(
    chunks: &SortedMap<Vec<u8>>,
    decode: &F,
    referenced: &IdSet,
    live: &mut IdSet,
) -> (seen: IdSet)
    requires
        chunks.wf(),
        referenced.wf(),
        old(live).wf(),
        steady(*decode),
    ensures
        seen.wf(),
        final(live).wf(),
        chained(chunks@, *decode, id_set(*referenced), id_set(seen)),
        forall|id: Seq<u8>| #[trigger]
            id_set(*final(live)).contains(id) <==> id_set(*old(live)).contains(id) || chunk_object(
                chunks@,
                *decode,
                id_set(seen),
                id,
            ),
{
    let ghost m = chunks@;
    let ghost start = id_set(*referenced);
    let ghost l0 = id_set(*live);
    let ghost keys = crate::reach::key_set(m);
    let mut queue: Vec<Vec<u8>> = Vec::new();
    let mut i: usize = 0;
    while i < referenced.len()
        invariant
            i <= referenced@.len(),
            queue@.len() == i,
            forall|j: int| 0 <= j < i ==> (#[trigger] queue@[j])@ == referenced@[j].0,
        decreases referenced@.len() - i,
    {
        queue.push(copy_bytes(referenced.key_at(i)));
        i += 1;
    }
    let mut seen: IdSet = SortedMap::new();
    proof {
        crate::reach::lemma_key_set(m);
        assert(id_set(seen) =~= Set::empty());
        assert forall|c: Seq<u8>| #[trigger] start.contains(c) implies waiting(queue@, c) by {
            let j = choose|j: int| 0 <= j < referenced@.len() && (#[trigger] referenced@[j]).0 == c;
            assert(queue@[j]@ == c);
        }
        assert forall|j: int| 0 <= j < queue@.len() implies on_chain(
            m,
            *decode,
            start,
            (#[trigger] queue@[j])@,
        ) by {
            crate::epoch::lemma_at(referenced@, j);
            lemma_has_key(referenced@, referenced@[j].0);
            assert(chain_in(m, *decode, start, queue@[j]@, 0));
        }
    }
    while queue.len() > 0
        invariant
            m == chunks@,
            chunks.wf(),
            steady(*decode),
            start == id_set(*referenced),
            keys == crate::reach::key_set(m),
            keys.finite(),
            forall|k: Seq<u8>| crate::sorted::has_key(m, k) ==> #[trigger] keys.contains(k),
            seen.wf(),
            live.wf(),
            forall|c: Seq<u8>| #[trigger]
                start.contains(c) ==> id_set(seen).contains(c) || waiting(queue@, c),
            forall|c: Seq<u8>|
                id_set(seen).contains(c) ==> (#[trigger] follows(m, *decode, c) matches Some(n)
                    ==> id_set(seen).contains(n) || waiting(queue@, n)),
            forall|c: Seq<u8>| #[trigger]
                id_set(seen).contains(c) ==> on_chain(m, *decode, start, c),
            forall|j: int|
                0 <= j < queue@.len() ==> on_chain(m, *decode, start, (#[trigger] queue@[j])@),
            forall|id: Seq<u8>| #[trigger]
                id_set(*live).contains(id) <==> l0.contains(id) || chunk_object(
                    m,
                    *decode,
                    id_set(seen),
                    id,
                ),
        decreases keys.difference(id_set(seen)).len(), queue@.len(),
    {
        let ghost q0 = queue@;
        let ghost s0 = id_set(seen);
        let ghost lk = id_set(*live);
        let cid = match queue.pop() {
            Some(c) => c,
            None => return seen,
        };
        let ghost c0 = cid@;
        assert(queue@ =~= q0.drop_last());
        assert(q0.last()@ == c0);
        proof {
            assert forall|c: Seq<u8>| waiting(q0, c) implies c == c0 || waiting(queue@, c) by {
                let j = choose|j: int| 0 <= j < q0.len() && (#[trigger] q0[j])@ == c;
                if j < q0.len() - 1 {
                    assert(queue@[j]@ == c);
                }
            }
        }
        if seen.contains(&cid) {
            continue;
        }
        let _ = insert_id(&mut seen, copy_bytes(&cid));
        let mut next: Option<ChunkId> = None;
        let mut desc: Option<Descriptor> = None;
        if let Some(bytes) = chunks.get(&cid) {
            desc = decode_with(decode, bytes);
            if let Some(d) = &desc {
                mark_objects(d, live);
                next = match d.form {
                    Form::ExactRef { target } => Some(target),
                    Form::BaseResidual { base, .. } => Some(base),
                    _ => None,
                };
            }
        }
        assert(follows(m, *decode, c0) == match next {
            Some(x) => Some(x@),
            None => None,
        });
        proof {
            let s1 = id_set(seen);
            assert forall|id: Seq<u8>| #[trigger] chunk_object(m, *decode, s1, id) <==> chunk_object(
                m,
                *decode,
                s0,
                id,
            ) || object_of_chunk(m, *decode, c0, id) by {
                if chunk_object(m, *decode, s0, id) {
                    let c = choose|c: Seq<u8>| #[trigger]
                        s0.contains(c) && object_of_chunk(m, *decode, c, id);
                    assert(s1.contains(c));
                }
                if object_of_chunk(m, *decode, c0, id) {
                    assert(s1.contains(c0));
                }
                if chunk_object(m, *decode, s1, id) {
                    let c = choose|c: Seq<u8>| #[trigger]
                        s1.contains(c) && object_of_chunk(m, *decode, c, id);
                    if c != c0 {
                        assert(s0.contains(c));
                    }
                }
            }
            assert forall|id: Seq<u8>| #[trigger]
                id_set(*live).contains(id) <==> l0.contains(id) || chunk_object(m, *decode, s1, id) by {
                assert(lk.contains(id) <==> l0.contains(id) || chunk_object(m, *decode, s0, id));
            }
        }
        let ghost q1 = queue@;
        if let Some(n) = next {
            proof {
                lemma_chain_step(m, *decode, start, c0, n@);
            }
            if !seen.contains(n.as_slice()) {
                queue.push(copy_bytes(n.as_slice()));
                assert(queue@.last()@ == n@);
                assert(waiting(queue@, n@));
            }
        }
        proof {
            let s1 = id_set(seen);
            assert forall|c: Seq<u8>| waiting(q1, c) implies waiting(queue@, c) by {
                let j = choose|j: int| 0 <= j < q1.len() && (#[trigger] q1[j])@ == c;
                assert(queue@[j]@ == c);
            }
            assert forall|j: int| 0 <= j < queue@.len() implies on_chain(
                m,
                *decode,
                start,
                (#[trigger] queue@[j])@,
            ) by {
                if j < q1.len() {
                    assert(queue@[j] == q0[j]);
                }
            }
            assert forall|c: Seq<u8>| s1.contains(c) implies (#[trigger] follows(
                m,
                *decode,
                c,
            ) matches Some(n) ==> s1.contains(n) || waiting(queue@, n)) by {
                if c != c0 {
                    assert(s0.contains(c));
                }
            }
            let before = keys.difference(s0);
            let after = keys.difference(s1);
            if keys.contains(c0) {
                assert(after =~= before.remove(c0));
                assert(before.contains(c0));
            } else {
                assert(after =~= before);
                lemma_has_key(m, c0);
                assert(next is None);
            }
        }
    }
    proof {
        assert forall|c: Seq<u8>| !waiting(queue@, c) by {}
    }
    seen
}

/// The chunk waits to be resolved.
spec fn waiting(queue: Seq<Vec<u8>>, c: Seq<u8>) -> bool {
    exists|j: int| 0 <= j < queue.len() && (#[trigger] queue[j])@ == c
}

// ---------------------------------------------------------------------------
// The live set
// ---------------------------------------------------------------------------

/// What a mark found.
pub struct LiveMark {
    /// The ids of the live objects.
    pub live: IdSet,
    /// The chunks that live extents refer to, and those on their reference chains.
    pub referenced: IdSet,
    /// The descriptors of live extents.
    pub live_descriptors: IdSet,
    /// The places visited.
    pub done: Ghost<Set<Place>>,
    /// The ids of the places visited.
    pub walked: Ghost<Set<Seq<u8>>>,
    /// The chunks that live extents refer to.
    pub direct: Ghost<Set<Seq<u8>>>,
    /// The chunk index.
    pub chunks: Ghost<Seq<(Seq<u8>, Vec<u8>)>>,
}

/// The walk of a store.
pub open spec fn ground<B: IoBackend, F: Fn(&[u8]) -> Option<Descriptor>>(
    st: Store<B>,
    decode: F,
) -> Ground<F> {
    Ground { objects: st.objects(), fanout: st.config.max_fanout, decode }
}

/// The snapshots of a store.
pub open spec fn snapshots_of<B: IoBackend>(st: Store<B>) -> Seq<(Seq<u8>, Seq<u8>)> {
    listing(st.objects(), st.root@.snapshot_tree_root, st.config.max_fanout)
}

/// The roots of a store: the current one and those of its snapshots.
pub open spec fn roots_of<B: IoBackend>(st: Store<B>) -> Seq<Place> {
    seq![(digest(root_bytes(st.root@)), MarkKind::Root)] + Seq::new(
        snapshots_of(st).len(),
        |i: int| (parse_snapshot(snapshots_of(st)[i].1)->Ok_0.0, MarkKind::Root),
    )
}

/// The chunk index in memory is the committed one.
pub open spec fn loaded<B: IoBackend>(st: Store<B>, chunks: Seq<(Seq<u8>, Vec<u8>)>) -> bool {
    forall|k: Seq<u8>|
        match #[trigger] lookup(chunks, k) {
            Some(b) => lookup(st.chunks(), k) == Some(b@),
            None => lookup(st.chunks(), k) is None,
        }
}

/// The mark is that of the store: a complete walk from its roots, the closure of
/// the chunks that live extents refer to, and the objects of both.
pub open spec fn marked<B: IoBackend, F: Fn(&[u8]) -> Option<Descriptor>>(
    st: Store<B>,
    decode: F,
    m: LiveMark,
) -> bool {
    let g = ground(st, decode);
    &&& walked(g, roots_of(st), m.done@, m.walked@)
    &&& noted(g, m.done@, id_set(m.live_descriptors), m.direct@)
    &&& loaded(st, m.chunks@)
    &&& chained(m.chunks@, decode, m.direct@, id_set(m.referenced))
    &&& forall|id: Seq<u8>| #[trigger]
        id_set(m.live).contains(id) <==> m.walked@.contains(id) || chunk_object(
            m.chunks@,
            decode,
            id_set(m.referenced),
            id,
        )
}

/// The trees that a mark reads besides walking can be read, and fit memory.
pub open spec fn markable<B: IoBackend>(st: Store<B>, h: nat) -> bool {
    &&& clash_free(st.objects())
    &&& tree_ok(st.objects(), st.root@.snapshot_tree_root, st.config.max_fanout, h)
    &&& snapshots_of(st).len() <= usize::MAX
    &&& st.chunks_ok(h)
    &&& st.chunks().len() <= usize::MAX
}

/// Some snapshot does not decode, or a reached place does not hold what is
/// expected.
pub open spec fn broken<B: IoBackend, F: Fn(&[u8]) -> Option<Descriptor>>(
    st: Store<B>,
    decode: F,
) -> bool {
    ||| exists|i: int|
        0 <= i < snapshots_of(st).len() && parse_snapshot((#[trigger] snapshots_of(st)[i]).1) is Err
    ||| exists|x: Place| #[trigger]
        reachable(ground(st, decode), roots_of(st), x) && out_of(
            st.objects(),
            st.config.max_fanout,
            decode,
            x,
        ) is None
}

/// The current root and the roots of the snapshots.
pub fn list_roots<B: IoBackend>(st: &Store<B>) -> (r: Result<Vec<(ChunkId, MarkKind)>, StoreError>)
    requires
        st.flushed(),
    ensures
        forall|h: nat| #[trigger]
            markable(*st, h) ==> match r {
                Ok(v) => place_views(v@) == roots_of(*st),
                Err(_) => !st.io.reliable() || h > max_height() || exists|i: int|
                    0 <= i < snapshots_of(*st).len() && parse_snapshot(
                        (#[trigger] snapshots_of(*st)[i]).1,
                    ) is Err,
            },
{
    let tx = st.begin_tx();
    proof {
        lemma_begun(*st, tx);
    }
    let ghost s = snapshots_of(*st);
    let snaps = match snapshot::list(
        st.root.snapshot_tree_root,
        BTREE_ORDER,
        st.config.max_fanout,
        &tx.objects,
    ) {
        Ok(v) => v,
        Err(e) => {
            proof {
                assert forall|h: nat| #[trigger] markable(*st, h) implies !st.io.reliable() || h
                    > max_height() || exists|i: int|
                    0 <= i < s.len() && parse_snapshot((#[trigger] s[i]).1) is Err by {
                    assert(lists(
                        tx.objects.payloads(),
                        st.root.snapshot_tree_root@,
                        BTREE_ORDER,
                        st.config.max_fanout,
                        h,
                        s,
                    ));
                }
            }
            return Err(StoreError::index(e));
        },
    };
    let mut out: Vec<(ChunkId, MarkKind)> = Vec::new();
    out.push((st.root.id(), MarkKind::Root));
    let mut i: usize = 0;
    while i < snaps.len()
        invariant
            i <= snaps@.len(),
            out@.len() == i + 1,
            out@[0].0@ == digest(root_bytes(st.root@)) && out@[0].1 == MarkKind::Root,
            forall|j: int|
                0 <= j < i ==> (#[trigger] out@[j + 1]).0 == snaps@[j].1.root_id && out@[j + 1].1
                    == MarkKind::Root,
        decreases snaps@.len() - i,
    {
        out.push((snaps[i].1.root_id, MarkKind::Root));
        i += 1;
    }
    proof {
        assert forall|h: nat| #[trigger] markable(*st, h) implies place_views(out@) == roots_of(
            *st,
        ) by {
            assert(lists(
                tx.objects.payloads(),
                st.root.snapshot_tree_root@,
                BTREE_ORDER,
                st.config.max_fanout,
                h,
                s,
            ));
            assert(snapshots_decode(s, snaps@));
            assert forall|j: int| 0 <= j < roots_of(*st).len() implies place_views(out@)[j]
                == roots_of(*st)[j] by {
                if j > 0 {
                    assert(out@[(j - 1) + 1].0 == snaps@[j - 1].1.root_id);
                    let _ = s[j - 1];
                }
            }
            assert(place_views(out@) =~= roots_of(*st));
        }
    }
    Ok(out)
}

/// Mark every object reachable from the current root and the snapshots.
#[verifier::rlimit(40)]
pub fn mark_live_full<B: IoBackend, F: Fn(&[u8]) -> Option<Descriptor>>(
    st: &Store<B>,
    decode: &F,
) -> (r: Result<LiveMark, StoreError>)
    requires
        st.flushed(),
        steady(*decode),
    ensures
        r matches Ok(m) ==> m.live.wf() && m.referenced.wf() && m.live_descriptors.wf(),
        forall|h: nat| #[trigger]
            markable(*st, h) ==> match r {
                Ok(m) => marked(*st, *decode, m),
                Err(_) => !st.io.reliable() || h > max_height() || broken(*st, *decode),
            },
{
    let roots = match list_roots(st) {
        Ok(v) => v,
        Err(e) => return Err(e),
    };
    let ghost rs = place_views(roots@);
    let w = match walk_from(st, roots, decode) {
        Ok(w) => w,
        Err(e) => {
            proof {
                assert forall|h: nat| #[trigger] markable(*st, h) implies !st.io.reliable()
                    || broken(*st, *decode) by {
                    if st.io.reliable() {
                        assert(rs == roots_of(*st));
                        let x = choose|x: Place| #[trigger]
                            reachable(ground(*st, *decode), rs, x) && out_of(
                                st.objects(),
                                st.config.max_fanout,
                                *decode,
                                x,
                            ) is None;
                        assert(reachable(ground(*st, *decode), roots_of(*st), x));
                    }
                }
            }
            return Err(e);
        },
    };
    let chunks = match load_chunks(st) {
        Ok(m) => m,
        Err(e) => return Err(e),
    };
    let mut live = w.live;
    let ghost live0 = id_set(live);
    let seen = resolve_chains(&chunks, decode, &w.referenced, &mut live);
    let m = LiveMark {
        live,
        referenced: seen,
        live_descriptors: w.descriptors,
        done: w.done,
        walked: Ghost(live0),
        direct: Ghost(id_set(w.referenced)),
        chunks: Ghost(chunks@),
    };
    proof {
        assert forall|h: nat| #[trigger] markable(*st, h) implies marked(*st, *decode, m) by {
            assert(st.chunks_ok(h));
        }
    }
    Ok(m)
}

/// Mark every reachable object; returns the live set.
pub fn mark_live<B: IoBackend, F: Fn(&[u8]) -> Option<Descriptor>>(
    st: &Store<B>,
    decode: &F,
) -> (r: Result<IdSet, StoreError>)
    requires
        st.flushed(),
        steady(*decode),
    ensures
        r matches Ok(live) ==> live.wf(),
        forall|h: nat| #[trigger]
            markable(*st, h) ==> match r {
                Ok(live) => exists|m: LiveMark| #[trigger]
                    marked(*st, *decode, m) && m.live == live,
                Err(_) => !st.io.reliable() || h > max_height() || broken(*st, *decode),
            },
{
    match mark_live_full(st, decode) {
        Ok(m) => Ok(m.live),
        Err(e) => Err(e),
    }
}

/// The mark holds everything reachable: nothing that a root reaches is taken for
/// garbage.
pub proof fn mark_holds_reachable<B: IoBackend, F: Fn(&[u8]) -> Option<Descriptor>>(
    st: Store<B>,
    decode: F,
    m: LiveMark,
    x: Place,
)
    requires
        marked(st, decode, m),
        reachable(ground(st, decode), roots_of(st), x),
    ensures
        id_set(m.live).contains(x.0),
{
    let g = ground(st, decode);
    let n = choose|n: nat| #[trigger] reach_in(g, roots_of(st), x, n);
    lemma_all_done(g, roots_of(st), m.done@, m.walked@, x, n);
}

pub proof fn lemma_all_done<F: Fn(&[u8]) -> Option<Descriptor>>(
    g: Ground<F>,
    roots: Seq<Place>,
    done: Set<Place>,
    live: Set<Seq<u8>>,
    x: Place,
    n: nat,
)
    requires
        walked(g, roots, done, live),
        reach_in(g, roots, x, n),
    ensures
        done.contains(x),
        live.contains(x.0),
    decreases n,
{
    assert(reachable(g, roots, x));
    if n == 0 {
        let i = choose|i: int| 0 <= i < roots.len() && roots[i] == x;
        assert(done.contains(roots[i]));
    } else {
        let y = choose|y: Place| #[trigger]
            leads(g, y, x) && reach_in(g, roots, y, (n - 1) as nat);
        lemma_all_done(g, roots, done, live, y, (n - 1) as nat);
    }
}

/// The mark holds nothing else: every id walked is reached from a root.
pub proof fn mark_holds_only_reachable<B: IoBackend, F: Fn(&[u8]) -> Option<Descriptor>>(
    st: Store<B>,
    decode: F,
    m: LiveMark,
    id: Seq<u8>,
)
    requires
        marked(st, decode, m),
        id_set(m.live).contains(id),
    ensures
        (exists|k: MarkKind| #[trigger] reachable(ground(st, decode), roots_of(st), (id, k)))
            || chunk_object(m.chunks@, decode, id_set(m.referenced), id),
{
    if m.walked@.contains(id) {
        let k = choose|k: MarkKind| #[trigger] m.done@.contains((id, k));
        assert(reachable(ground(st, decode), roots_of(st), (id, k)));
    }
}

// ---------------------------------------------------------------------------
// Accounting
// ---------------------------------------------------------------------------

/// The bytes of the indexed records that are not live.
pub open spec fn dead_bytes(index: Seq<(Seq<u8>, Location)>, live: Set<Seq<u8>>) -> nat
    decreases index.len(),
{
    if index.len() == 0 {
        0
    } else {
        let rest = dead_bytes(index.drop_last(), live);
        if live.contains(index.last().0) {
            rest
        } else {
            rest + HEADER_SIZE as nat + index.last().1.stored_len as nat
        }
    }
}

/// Unreachable record bytes, by the index's one location for each id.
pub fn unreachable_bytes(index: &ObjectIndex, live: &IdSet) -> (r: u64)
    requires
        live.wf(),
    ensures
        r == saturated(dead_bytes(index@, id_set(*live))),
{
    let ghost s = index@;
    let mut total: u64 = 0;
    let mut i: usize = 0;
    assert(s.take(0) =~= Seq::empty());
    while i < index.len()
        invariant
            i <= index@.len(),
            s == index@,
            live.wf(),
            total == saturated(dead_bytes(s.take(i as int), id_set(*live))),
        decreases index@.len() - i,
    {
        let (id, loc) = index.entry(i);
        proof {
            assert(s.take(i + 1).drop_last() =~= s.take(i as int));
            assert(s.take(i + 1).last() == s[i as int]);
        }
        if !live.contains(id) {
            total = total.saturating_add(HEADER_SIZE.saturating_add(loc.stored_len));
        }
        i += 1;
    }
    assert(s.take(i as int) =~= s);
    total
}

/// The bytes of the indexed records of a tag that are not live.
pub open spec fn dead_tag_bytes(
    index: Seq<(Seq<u8>, Location)>,
    live: Set<Seq<u8>>,
    tag: RecordTag,
) -> nat
    decreases index.len(),
{
    if index.len() == 0 {
        0
    } else {
        let rest = dead_tag_bytes(index.drop_last(), live, tag);
        if live.contains(index.last().0) || index.last().1.tag != tag {
            rest
        } else {
            rest + HEADER_SIZE as nat + index.last().1.stored_len as nat
        }
    }
}

/// Unreachable record bytes of one tag.
pub fn unreachable_bytes_of_tag(index: &ObjectIndex, live: &IdSet, tag: RecordTag) -> (r: u64)
    requires
        live.wf(),
    ensures
        r == saturated(dead_tag_bytes(index@, id_set(*live), tag)),
{
    let ghost s = index@;
    let mut total: u64 = 0;
    let mut i: usize = 0;
    assert(s.take(0) =~= Seq::empty());
    while i < index.len()
        invariant
            i <= index@.len(),
            s == index@,
            live.wf(),
            total == saturated(dead_tag_bytes(s.take(i as int), id_set(*live), tag)),
        decreases index@.len() - i,
    {
        let (id, loc) = index.entry(i);
        proof {
            assert(s.take(i + 1).drop_last() =~= s.take(i as int));
            assert(s.take(i + 1).last() == s[i as int]);
        }
        if loc.tag == tag && !live.contains(id) {
            total = total.saturating_add(HEADER_SIZE.saturating_add(loc.stored_len));
        }
        i += 1;
    }
    assert(s.take(i as int) =~= s);
    total
}

/// Unreachable record bytes by record tag; tags without any are left out.
pub fn unreachable_bytes_by_record_tag(index: &ObjectIndex, live: &IdSet) -> (r: Vec<
    (RecordTag, u64),
>)
    requires
        live.wf(),
    ensures
        forall|i: int|
            0 <= i < r@.len() ==> (#[trigger] r@[i]).1 > 0 && r@[i].1 == saturated(
                dead_tag_bytes(index@, id_set(*live), r@[i].0),
            ),
        forall|t: RecordTag| #[trigger]
            dead_tag_bytes(index@, id_set(*live), t) > 0 ==> tagged(r@, t),
{
    let mut out: Vec<(RecordTag, u64)> = Vec::new();
    push_tag(index, live, RecordTag::Data, &mut out);
    push_tag(index, live, RecordTag::Model, &mut out);
    push_tag(index, live, RecordTag::BtreeNode, &mut out);
    push_tag(index, live, RecordTag::Inode, &mut out);
    push_tag(index, live, RecordTag::Root, &mut out);
    push_tag(index, live, RecordTag::MutationLog, &mut out);
    proof {
        assert forall|t: RecordTag| #[trigger] dead_tag_bytes(index@, id_set(*live), t) > 0 implies tagged(
            out@,
            t,
        ) by {
            match t {
                RecordTag::Data => {},
                RecordTag::Model => {},
                RecordTag::BtreeNode => {},
                RecordTag::Inode => {},
                RecordTag::Root => {},
                RecordTag::MutationLog => {},
            }
        }
    }
    out
}

fn push_tag(index: &ObjectIndex, live: &IdSet, tag: RecordTag, out: &mut Vec<(RecordTag, u64)>)
    requires
        live.wf(),
        forall|i: int|
            0 <= i < old(out)@.len() ==> (#[trigger] old(out)@[i]).1 > 0 && old(out)@[i].1
                == saturated(dead_tag_bytes(index@, id_set(*live), old(out)@[i].0)),
    ensures
        forall|i: int|
            0 <= i < final(out)@.len() ==> (#[trigger] final(out)@[i]).1 > 0 && final(out)@[i].1
                == saturated(dead_tag_bytes(index@, id_set(*live), final(out)@[i].0)),
        forall|t: RecordTag| tagged(old(out)@, t) ==> #[trigger] tagged(final(out)@, t),
        dead_tag_bytes(index@, id_set(*live), tag) > 0 ==> tagged(final(out)@, tag),
{
    let ghost had = out@;
    let n: u64 = unreachable_bytes_of_tag(index, live, tag);
    if n > 0 {
        out.push((tag, n));
    }
    proof {
        assert forall|t: RecordTag| tagged(had, t) implies #[trigger] tagged(out@, t) by {
            let i = choose|i: int| 0 <= i < had.len() && (#[trigger] had[i]).0 == t;
            assert(out@[i].0 == t);
        }
        if n > 0 {
            assert(out@[had.len() as int].0 == tag);
        }
    }
}

/// The tag occurs.
pub open spec fn tagged(v: Seq<(RecordTag, u64)>, t: RecordTag) -> bool {
    exists|i: int| 0 <= i < v.len() && (#[trigger] v[i]).0 == t
}

/// The report accounts for the segment files by this live set, which is what the roots
/// reach.
#[verifier::opaque]
pub open spec fn reported<B: IoBackend, F: Fn(&[u8]) -> Option<Descriptor>>(
    st: Store<B>,
    decode: F,
    seqs: Seq<u64>,
    live: Seq<(Seq<u8>, ())>,
    report: PhysicalReport,
) -> bool {
    &&& totalled(report)
    &&& report.segments@.len() == seqs.len()
    &&& forall|i: int|
        0 <= i < seqs.len() ==> accounted(
            #[trigger] report.segments@[i],
            seqs[i],
            file_of(st.io.segments(), seqs[i]),
            st.config.max_records_per_segment as nat,
            live,
            st.index@,
        )
    &&& forall|h: nat| #[trigger]
        markable(st, h) ==> exists|m: LiveMark| #[trigger]
            marked(st, decode, m) && m.live@ == live
}

/// Mark and scan in one call: the live set is what the store reaches now, and the segment
/// files are read through its transport.
pub fn physical_report<B: IoBackend, F: Fn(&[u8]) -> Option<Descriptor>>(
    st: &Store<B>,
    seqs: &Vec<u64>,
    decode: &F,
) -> (r: Result<PhysicalReport, StoreError>)
    requires
        st.ready(),
        steady(*decode),
    ensures
        r matches Ok(report) ==> exists|live: Seq<(Seq<u8>, ())>| #[trigger]
            reported(*st, *decode, seqs@, live, report),
        r is Err ==> {
            ||| !st.io.reliable()
            ||| forall|h: nat| #[trigger]
                markable(*st, h) ==> h > max_height() || broken(*st, *decode)
            ||| exists|i: int|
                0 <= i < seqs@.len() && scan_of(
                    file_of(st.io.segments(), #[trigger] seqs@[i]),
                    st.config.max_records_per_segment as nat,
                ) is Err
        },
{
    let live = match mark_live(st, decode) {
        Ok(v) => v,
        Err(e) => {
            assert(!st.io.reliable() || forall|h: nat| #[trigger]
                markable(*st, h) ==> h > max_height() || broken(*st, *decode));
            return Err(e);
        },
    };
    let mut files: Vec<(u64, Vec<u8>)> = Vec::new();
    let mut i: usize = 0;
    while i < seqs.len()
        invariant
            i <= seqs@.len(),
            files@.len() == i,
            forall|j: int|
                0 <= j < i ==> (#[trigger] files@[j]).0 == seqs@[j] && files@[j].1@ == file_of(
                    st.io.segments(),
                    seqs@[j],
                ),
        decreases seqs@.len() - i,
    {
        match st.io.read_segment_file(seqs[i]) {
            Ok(bytes) => files.push((seqs[i], bytes)),
            Err(e) => return Err(e),
        }
        i += 1;
    }
    let out = scan_physical(&files, st.config.max_records_per_segment, &live, &st.index);
    proof {
        assert forall|j: int| 0 <= j < seqs@.len() implies (#[trigger] files@[j]).0 == seqs@[j]
            && files@[j].1@ == file_of(st.io.segments(), seqs@[j]) by {}
        if out is Ok {
            let report = out->Ok_0;
            assert forall|j: int| 0 <= j < seqs@.len() implies accounted(
                #[trigger] report.segments@[j],
                seqs@[j],
                file_of(st.io.segments(), seqs@[j]),
                st.config.max_records_per_segment as nat,
                live@,
                st.index@,
            ) by {
                assert(files@[j].0 == seqs@[j]);
            }
            assert(reported(*st, *decode, seqs@, live@, report)) by {
                reveal(reported);
            }
        } else {
            let j = choose|j: int|
                0 <= j < files@.len() && scan_of(
                    (#[trigger] files@[j]).1@,
                    st.config.max_records_per_segment as nat,
                ) is Err;
            assert(files@[j].1@ == file_of(st.io.segments(), seqs@[j]));
        }
    }
    let r: Result<PhysicalReport, StoreError> = match out {
        Ok(report) => Ok(report),
        Err(e) => Err(StoreError::Segment(e)),
    };
    assert(r is Ok ==> reported(*st, *decode, seqs@, live@, r->Ok_0));
    r
}

} // verus!
