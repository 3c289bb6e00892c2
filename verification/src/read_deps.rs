//! What a read has to fetch: the objects behind the descriptors of its extents, and
//! behind the chunks that those refer to.

use vstd::prelude::*;

use crate::bytes::copy_bytes;
use crate::chunk::{digest, ChunkId};
use crate::commit::fetched;
use crate::descriptor::{chunks_of, decode_with, decoded, objects_of, steady, Descriptor};
use crate::epoch::Epoch;
use crate::error::StoreError;
use crate::fs::Listing;
use crate::index::{trusty, ObjectProvider};
use crate::io::IoBackend;
use crate::namespace::strained;
use crate::sorted::lookup;
use crate::store::Store;
use crate::transaction::Tx;

verus! {

/// The descriptor of a chunk: the pending one, else the committed one, where it
/// decodes.
pub open spec fn resolved<F: Fn(&[u8]) -> Option<Descriptor>>(
    f: F,
    ep: Epoch,
    cs: Listing,
    id: Seq<u8>,
) -> Option<Descriptor> {
    if ep@.chunks.contains_key(id) {
        decoded(f, ep@.chunks[id])
    } else {
        match lookup(cs, id) {
            Some(b) => decoded(f, b),
            None => None,
        }
    }
}

/// The id is among these.
pub open spec fn among(v: Seq<ChunkId>, id: Seq<u8>) -> bool {
    exists|i: int| 0 <= i < v.len() && (#[trigger] v[i])@ == id
}

/// No id comes twice.
pub open spec fn once(v: Seq<ChunkId>) -> bool {
    forall|i: int, j: int| #![trigger v[i], v[j]] 0 <= i < j < v.len() ==> v[i]@ != v[j]@
}

/// Some root refers to the chunk.
pub open spec fn root_refers(roots: Seq<Descriptor>, id: Seq<u8>) -> bool {
    exists|i: int| 0 <= i < roots.len() && among(chunks_of((#[trigger] roots[i]).form), id)
}

/// The chunk is reached from the roots in at most `k` steps.
pub open spec fn near<F: Fn(&[u8]) -> Option<Descriptor>>(
    f: F,
    ep: Epoch,
    cs: Listing,
    roots: Seq<Descriptor>,
    k: nat,
    id: Seq<u8>,
) -> bool
    decreases k,
{
    if k == 0 {
        false
    } else {
        ||| root_refers(roots, id)
        ||| near(f, ep, cs, roots, (k - 1) as nat, id)
        ||| exists|y: Seq<u8>| near(f, ep, cs, roots, (k - 1) as nat, y) && #[trigger] leads_to(
            f,
            ep,
            cs,
            y,
            id,
        )
    }
}

/// The chunk `y` refers to the chunk `id`.
pub open spec fn leads_to<F: Fn(&[u8]) -> Option<Descriptor>>(
    f: F,
    ep: Epoch,
    cs: Listing,
    y: Seq<u8>,
    id: Seq<u8>,
) -> bool {
    resolved(f, ep, cs, y) matches Some(d) && among(chunks_of(d.form), id)
}

/// The object is one that the roots, or a chunk within `k` steps of them, are made
/// from.
pub open spec fn needed<F: Fn(&[u8]) -> Option<Descriptor>>(
    f: F,
    ep: Epoch,
    cs: Listing,
    roots: Seq<Descriptor>,
    k: nat,
    obj: Seq<u8>,
) -> bool {
    ||| exists|i: int| 0 <= i < roots.len() && among(objects_of((#[trigger] roots[i]).form), obj)
    ||| exists|y: Seq<u8>| #[trigger] near(f, ep, cs, roots, k, y) && made_from(f, ep, cs, y, obj)
}

/// The chunk `y` is made from the object.
pub open spec fn made_from<F: Fn(&[u8]) -> Option<Descriptor>>(
    f: F,
    ep: Epoch,
    cs: Listing,
    y: Seq<u8>,
    obj: Seq<u8>,
) -> bool {
    resolved(f, ep, cs, y) matches Some(d) && among(objects_of(d.form), obj)
}

/// Chunks that were reached, each with its descriptor.
pub type Known = Vec<(ChunkId, Option<Descriptor>)>;

pub open spec fn knows(known: Seq<(ChunkId, Option<Descriptor>)>, id: Seq<u8>) -> bool {
    exists|i: int| 0 <= i < known.len() && (#[trigger] known[i]).0@ == id
}

/// Every descriptor is the one of its chunk.
pub open spec fn sound<F: Fn(&[u8]) -> Option<Descriptor>>(
    f: F,
    ep: Epoch,
    cs: Listing,
    known: Seq<(ChunkId, Option<Descriptor>)>,
) -> bool {
    forall|i: int|
        0 <= i < known.len() ==> (#[trigger] known[i]).1 == resolved(f, ep, cs, known[i].0@)
}

fn is_known(known: &Known, id: &ChunkId) -> (r: bool)
    ensures
        r == knows(known@, id@),
{
    let mut i: usize = 0;
    while i < known.len()
        invariant
            i <= known@.len(),
            forall|j: int| 0 <= j < i ==> (#[trigger] known@[j]).0@ != id@,
        decreases known@.len() - i,
    {
        if known[i].0 == *id {
            assert(known@[i as int].0@ == id@);
            return true;
        }
        i += 1;
    }
    false
}

fn add_id(out: &mut Vec<ChunkId>, id: ChunkId)
    ensures
        forall|x: Seq<u8>| #[trigger] among(final(out)@, x) <==> among(old(out)@, x) || x == id@,
        once(old(out)@) ==> once(final(out)@),
{
    let ghost was = out@;
    let mut i: usize = 0;
    while i < out.len()
        invariant
            i <= out@.len(),
            out@ == was,
            was == old(out)@,
            forall|j: int| 0 <= j < i ==> (#[trigger] was[j])@ != id@,
        decreases out@.len() - i,
    {
        if out[i] == id {
            assert(out@[i as int]@ == id@);
            return;
        }
        i += 1;
    }
    out.push(id);
    proof {
        let now = out@;
        assert(now[was.len() as int]@ == id@);
        assert forall|x: Seq<u8>| #[trigger] among(now, x) <==> among(was, x) || x == id@ by {
            if among(was, x) {
                let j = choose|j: int| 0 <= j < was.len() && (#[trigger] was[j])@ == x;
                assert(now[j]@ == x);
            }
            if among(now, x) {
                let j = choose|j: int| 0 <= j < now.len() && (#[trigger] now[j])@ == x;
                if j < was.len() {
                    assert(was[j]@ == x);
                }
            }
        }
    }
}

/// Add the objects that a representation is made from, each once.
fn add_objects(out: &mut Vec<ChunkId>, d: &Descriptor)
    ensures
        forall|x: Seq<u8>| #[trigger]
            among(final(out)@, x) <==> among(old(out)@, x) || among(objects_of(d.form), x),
        once(old(out)@) ==> once(final(out)@),
{
    let ghost was = out@;
    let objs = d.objects();
    let mut i: usize = 0;
    while i < objs.len()
        invariant
            i <= objs@.len(),
            once(was) ==> once(out@),
            forall|x: Seq<u8>| #[trigger]
                among(out@, x) <==> among(was, x) || among(objs@.take(i as int), x),
        decreases objs@.len() - i,
    {
        let ghost before = out@;
        add_id(out, objs[i]);
        proof {
            lemma_among_take(objs@, i as int);
            assert forall|x: Seq<u8>| #[trigger] among(out@, x) <==> among(was, x) || among(
                objs@.take(i + 1),
                x,
            ) by {
                assert(among(before, x) <==> among(was, x) || among(objs@.take(i as int), x));
            }
        }
        i += 1;
    }
    assert(objs@.take(i as int) =~= objs@);
}

proof fn lemma_among_take(v: Seq<ChunkId>, i: int)
    requires
        0 <= i < v.len(),
    ensures
        forall|x: Seq<u8>| #[trigger]
            among(v.take(i + 1), x) <==> among(v.take(i), x) || x == v[i]@,
{
    let a = v.take(i);
    let b = v.take(i + 1);
    assert forall|x: Seq<u8>| #[trigger] among(b, x) <==> among(a, x) || x == v[i]@ by {
        if among(b, x) {
            let j = choose|j: int| 0 <= j < b.len() && (#[trigger] b[j])@ == x;
            if j < i {
                assert(a[j]@ == x);
            }
        }
        if among(a, x) {
            let j = choose|j: int| 0 <= j < a.len() && (#[trigger] a[j])@ == x;
            assert(b[j]@ == x);
        }
        if x == v[i]@ {
            assert(b[i]@ == x);
        }
    }
}

impl<B: IoBackend> Store<B> {
    /// The descriptor of a chunk, seen through the overlay.
    fn resolve_chunk<F: Fn(&[u8]) -> Option<Descriptor>>(
        ep: &Epoch,
        tx: &Tx<'_, B>,
        id: &ChunkId,
        decode: &F,
    ) -> (r: Result<Option<Descriptor>, StoreError>)
        requires
            ep.wf(),
            steady(*decode),
        ensures
            forall|h: nat| #[trigger]
                tx.chunks_ok(h) && trusty(&tx.objects) ==> match r {
                    Ok(d) => d == resolved(*decode, *ep, tx.chunks(), id@),
                    Err(_) => strained(*tx, h),
                },
    {
        match Self::chunk_descriptor_epoch(ep, tx, id) {
            Ok(Some(b)) => Ok(decode_with(decode, &b)),
            Ok(None) => Ok(None),
            Err(e) => Err(e),
        }
    }

    /// Add the chunks that a representation refers to, each once, with its descriptor.
    fn add_refs<F: Fn(&[u8]) -> Option<Descriptor>>(
        known: &mut Known,
        d: &Descriptor,
        ep: &Epoch,
        tx: &Tx<'_, B>,
        decode: &F,
    ) -> (r: Result<(), StoreError>)
        requires
            ep.wf(),
            steady(*decode),
        ensures
            old(known)@.len() <= final(known)@.len(),
            final(known)@.take(old(known)@.len() as int) == old(known)@,
            r is Ok ==> forall|x: Seq<u8>| #[trigger]
                knows(final(known)@, x) <==> knows(old(known)@, x) || among(chunks_of(d.form), x),
            forall|h: nat| #[trigger]
                tx.chunks_ok(h) && trusty(&tx.objects) ==> match r {
                    Ok(_) => sound(*decode, *ep, tx.chunks(), old(known)@) ==> sound(
                        *decode,
                        *ep,
                        tx.chunks(),
                        final(known)@,
                    ),
                    Err(_) => strained(*tx, h),
                },
    {
        let ghost was = known@;
        let refs = d.chunks();
        let mut i: usize = 0;
        assert(was.take(was.len() as int) =~= was);
        while i < refs.len()
            invariant
                i <= refs@.len(),
                ep.wf(),
                steady(*decode),
                was == old(known)@,
                was.len() <= known@.len(),
                known@.take(was.len() as int) == was,
                forall|x: Seq<u8>| #[trigger]
                    knows(known@, x) <==> knows(was, x) || among(refs@.take(i as int), x),
                forall|h: nat| #[trigger]
                    tx.chunks_ok(h) && trusty(&tx.objects) && sound(
                        *decode,
                        *ep,
                        tx.chunks(),
                        was,
                    ) ==> sound(*decode, *ep, tx.chunks(), known@),
            decreases refs@.len() - i,
        {
            let ghost before = known@;
            proof {
                lemma_among_take(refs@, i as int);
            }
            if !is_known(known, &refs[i]) {
                let v = match Self::resolve_chunk(ep, tx, &refs[i], decode) {
                    Ok(v) => v,
                    Err(e) => return Err(e),
                };
                known.push((refs[i], v));
                proof {
                    lemma_knows_push(before, (refs@[i as int], v));
                    assert(known@.take(was.len() as int) =~= was);
                    assert forall|h: nat| #[trigger]
                        tx.chunks_ok(h) && trusty(&tx.objects) && sound(
                            *decode,
                            *ep,
                            tx.chunks(),
                            was,
                        ) implies sound(*decode, *ep, tx.chunks(), known@) by {
                        let now = known@;
                        assert forall|j: int| 0 <= j < now.len() implies (#[trigger] now[j]).1
                            == resolved(*decode, *ep, tx.chunks(), now[j].0@) by {
                            if j < before.len() {
                                assert(now[j] == before[j]);
                            }
                        }
                    }
                }
            }
            proof {
                assert forall|x: Seq<u8>| #[trigger] knows(known@, x) <==> knows(was, x) || among(
                    refs@.take(i + 1),
                    x,
                ) by {
                    assert(knows(before, x) <==> knows(was, x) || among(refs@.take(i as int), x));
                }
            }
            i += 1;
        }
        assert(refs@.take(i as int) =~= refs@);
        Ok(())
    }
}

proof fn lemma_knows_push(
    a: Seq<(ChunkId, Option<Descriptor>)>,
    e: (ChunkId, Option<Descriptor>),
)
    ensures
        forall|x: Seq<u8>| #[trigger] knows(a.push(e), x) <==> knows(a, x) || x == e.0@,
{
    let b = a.push(e);
    assert(b[a.len() as int] == e);
    assert forall|x: Seq<u8>| #[trigger] knows(b, x) <==> knows(a, x) || x == e.0@ by {
        if knows(b, x) {
            let j = choose|j: int| 0 <= j < b.len() && (#[trigger] b[j]).0@ == x;
            if j < a.len() {
                assert(a[j].0@ == x);
            }
        }
        if knows(a, x) {
            let j = choose|j: int| 0 <= j < a.len() && (#[trigger] a[j]).0@ == x;
            assert(b[j].0@ == x);
        }
    }
}

/// Some chunk that was reached refers to this one.
pub open spec fn refers(known: Seq<(ChunkId, Option<Descriptor>)>, id: Seq<u8>) -> bool {
    exists|i: int| 0 <= i < known.len() && entry_refers(#[trigger] known[i], id)
}

pub open spec fn entry_refers(e: (ChunkId, Option<Descriptor>), id: Seq<u8>) -> bool {
    e.1 matches Some(d) && among(chunks_of(d.form), id)
}

/// One step further: where the chunks are those within `k` steps, they are then those
/// within `k + 1`.
proof fn lemma_level<F: Fn(&[u8]) -> Option<Descriptor>>(
    f: F,
    ep: Epoch,
    cs: Listing,
    roots: Seq<Descriptor>,
    k: nat,
    known: Seq<(ChunkId, Option<Descriptor>)>,
    x: Seq<u8>,
)
    requires
        k >= 1,
        sound(f, ep, cs, known),
        forall|y: Seq<u8>| #[trigger] knows(known, y) <==> near(f, ep, cs, roots, k, y),
    ensures
        near(f, ep, cs, roots, k + 1, x) <==> knows(known, x) || refers(known, x),
{
    if near(f, ep, cs, roots, k + 1, x) {
        if root_refers(roots, x) {
            assert(near(f, ep, cs, roots, k, x));
            assert(knows(known, x));
        } else if near(f, ep, cs, roots, k, x) {
            assert(knows(known, x));
        } else {
            let y = choose|y: Seq<u8>| near(f, ep, cs, roots, k, y) && #[trigger] leads_to(
                f,
                ep,
                cs,
                y,
                x,
            );
            assert(knows(known, y));
            let i = choose|i: int| 0 <= i < known.len() && (#[trigger] known[i]).0@ == y;
            assert(entry_refers(known[i], x));
        }
    }
    if refers(known, x) {
        let i = choose|i: int| 0 <= i < known.len() && entry_refers(#[trigger] known[i], x);
        let y = known[i].0@;
        assert(knows(known, y));
        assert(leads_to(f, ep, cs, y, x));
    }
    if knows(known, x) {
        assert(near(f, ep, cs, roots, k, x));
    }
}

impl<B: IoBackend> Store<B> {
    /// Add the chunks that the roots refer to.
    fn add_roots<F: Fn(&[u8]) -> Option<Descriptor>>(
        roots: &Vec<Descriptor>,
        ep: &Epoch,
        tx: &Tx<'_, B>,
        decode: &F,
    ) -> (r: Result<Known, StoreError>)
        requires
            ep.wf(),
            steady(*decode),
        ensures
            r matches Ok(known) ==> forall|x: Seq<u8>| #[trigger]
                knows(known@, x) <==> root_refers(roots@, x),
            forall|h: nat| #[trigger]
                tx.chunks_ok(h) && trusty(&tx.objects) ==> match r {
                    Ok(known) => sound(*decode, *ep, tx.chunks(), known@),
                    Err(_) => strained(*tx, h),
                },
    {
        let mut known: Known = Vec::new();
        let mut i: usize = 0;
        while i < roots.len()
            invariant
                i <= roots@.len(),
                ep.wf(),
                steady(*decode),
                forall|x: Seq<u8>| #[trigger]
                    knows(known@, x) <==> root_refers(roots@.take(i as int), x),
                forall|h: nat| #[trigger]
                    tx.chunks_ok(h) && trusty(&tx.objects) ==> sound(
                        *decode,
                        *ep,
                        tx.chunks(),
                        known@,
                    ),
            decreases roots@.len() - i,
        {
            let ghost before = known@;
            match Self::add_refs(&mut known, &roots[i], ep, tx, decode) {
                Ok(_) => {},
                Err(e) => return Err(e),
            }
            proof {
                let a = roots@.take(i as int);
                let b = roots@.take(i + 1);
                assert forall|x: Seq<u8>| #[trigger] knows(known@, x) <==> root_refers(b, x) by {
                    assert(knows(before, x) <==> root_refers(a, x));
                    if root_refers(a, x) {
                        let j = choose|j: int|
                            0 <= j < a.len() && among(chunks_of((#[trigger] a[j]).form), x);
                        assert(b[j] == a[j]);
                    }
                    if root_refers(b, x) {
                        let j = choose|j: int|
                            0 <= j < b.len() && among(chunks_of((#[trigger] b[j]).form), x);
                        if j < i {
                            assert(a[j] == b[j]);
                        }
                    }
                    assert(b[i as int] == roots@[i as int]);
                }
            }
            i += 1;
        }
        assert(roots@.take(i as int) =~= roots@);
        Ok(known)
    }

    /// Add the chunks that those reached so far refer to.
    fn add_level<F: Fn(&[u8]) -> Option<Descriptor>>(
        known: &mut Known,
        ep: &Epoch,
        tx: &Tx<'_, B>,
        decode: &F,
    ) -> (r: Result<(), StoreError>)
        requires
            ep.wf(),
            steady(*decode),
        ensures
            r is Ok ==> forall|x: Seq<u8>| #[trigger]
                knows(final(known)@, x) <==> knows(old(known)@, x) || refers(old(known)@, x),
            forall|h: nat| #[trigger]
                tx.chunks_ok(h) && trusty(&tx.objects) ==> match r {
                    Ok(_) => sound(*decode, *ep, tx.chunks(), old(known)@) ==> sound(
                        *decode,
                        *ep,
                        tx.chunks(),
                        final(known)@,
                    ),
                    Err(_) => strained(*tx, h),
                },
    {
        let ghost was = known@;
        let n: usize = known.len();
        let mut i: usize = 0;
        assert(was.take(was.len() as int) =~= was);
        while i < n
            invariant
                i <= n,
                n == was.len(),
                ep.wf(),
                steady(*decode),
                n <= known@.len(),
                known@.take(n as int) == was,
                forall|x: Seq<u8>| #[trigger]
                    knows(known@, x) <==> knows(was, x) || refers(was.take(i as int), x),
                forall|h: nat| #[trigger]
                    tx.chunks_ok(h) && trusty(&tx.objects) && sound(
                        *decode,
                        *ep,
                        tx.chunks(),
                        was,
                    ) ==> sound(*decode, *ep, tx.chunks(), known@),
            decreases n - i,
        {
            let ghost before = known@;
            assert(known@.take(n as int)[i as int] == known@[i as int]);
            let d: Option<Descriptor> = known[i].1;
            match d {
                Some(d) => {
                    match Self::add_refs(known, &d, ep, tx, decode) {
                        Ok(_) => {},
                        Err(e) => return Err(e),
                    }
                },
                None => {
                    assert(known@.take(before.len() as int) =~= before);
                },
            }
            proof {
                let a = was.take(i as int);
                let b = was.take(i + 1);
                assert(known@.take(n as int) =~= was) by {
                    assert(known@.take(before.len() as int) == before);
                    assert forall|j: int| 0 <= j < n implies known@[j] == was[j] by {
                        assert(known@.take(before.len() as int)[j] == before[j]);
                        assert(before.take(n as int)[j] == was[j]);
                    }
                }
                assert forall|x: Seq<u8>| #[trigger] knows(known@, x) <==> knows(was, x) || refers(
                    b,
                    x,
                ) by {
                    assert(knows(before, x) <==> knows(was, x) || refers(a, x));
                    if refers(a, x) {
                        let j = choose|j: int| 0 <= j < a.len() && entry_refers(#[trigger] a[j], x);
                        assert(b[j] == a[j]);
                    }
                    if refers(b, x) {
                        let j = choose|j: int| 0 <= j < b.len() && entry_refers(#[trigger] b[j], x);
                        if j < i {
                            assert(a[j] == b[j]);
                        }
                    }
                    assert(b[i as int] == was[i as int]);
                }
            }
            i += 1;
        }
        assert(was.take(i as int) =~= was);
        Ok(())
    }

    /// Every object that a read of these descriptors needs: those they are made from,
    /// and those of the chunks that they refer to, through at most `cap` references.
    /// Each comes once.
    #[verifier::rlimit(60)]
    pub fn collect_read_deps<F: Fn(&[u8]) -> Option<Descriptor>>(
        ep: &Epoch,
        tx: &Tx<'_, B>,
        roots: &Vec<Descriptor>,
        cap: u8,
        decode: &F,
    ) -> (r: Result<Vec<ChunkId>, StoreError>)
        requires
            ep.wf(),
            steady(*decode),
        ensures
            r matches Ok(deps) ==> once(deps@),
            forall|h: nat| #[trigger]
                tx.chunks_ok(h) && trusty(&tx.objects) ==> match r {
                    Ok(deps) => forall|obj: Seq<u8>| #[trigger]
                        among(deps@, obj) <==> needed(
                            *decode,
                            *ep,
                            tx.chunks(),
                            roots@,
                            cap as nat,
                            obj,
                        ),
                    Err(_) => strained(*tx, h),
                },
    {
        let known = match Self::reach_chunks(ep, tx, roots, cap, decode) {
            Ok(known) => known,
            Err(e) => return Err(e),
        };
        let mut deps: Vec<ChunkId> = Vec::new();
        let mut i: usize = 0;
        while i < roots.len()
            invariant
                i <= roots@.len(),
                once(deps@),
                forall|obj: Seq<u8>| #[trigger]
                    among(deps@, obj) <==> roots_made(roots@.take(i as int), obj),
            decreases roots@.len() - i,
        {
            let ghost before = deps@;
            add_objects(&mut deps, &roots[i]);
            proof {
                let a = roots@.take(i as int);
                let b = roots@.take(i + 1);
                assert forall|x: Seq<u8>| #[trigger] among(deps@, x) <==> roots_made(b, x) by {
                    assert(among(before, x) <==> roots_made(a, x));
                    if roots_made(a, x) {
                        let j = choose|j: int|
                            0 <= j < a.len() && among(objects_of((#[trigger] a[j]).form), x);
                        assert(b[j] == a[j]);
                    }
                    if roots_made(b, x) {
                        let j = choose|j: int|
                            0 <= j < b.len() && among(objects_of((#[trigger] b[j]).form), x);
                        if j < i {
                            assert(a[j] == b[j]);
                        }
                    }
                    assert(b[i as int] == roots@[i as int]);
                }
            }
            i += 1;
        }
        assert(roots@.take(i as int) =~= roots@);
        let mut k: usize = 0;
        while k < known.len()
            invariant
                k <= known@.len(),
                once(deps@),
                forall|obj: Seq<u8>| #[trigger]
                    among(deps@, obj) <==> roots_made(roots@, obj) || known_made(
                        known@.take(k as int),
                        obj,
                    ),
            decreases known@.len() - k,
        {
            let ghost before = deps@;
            match known[k].1 {
                Some(d) => {
                    add_objects(&mut deps, &d);
                },
                None => {},
            }
            proof {
                let a = known@.take(k as int);
                let b = known@.take(k + 1);
                assert forall|x: Seq<u8>| #[trigger] among(deps@, x) <==> roots_made(roots@, x)
                    || known_made(b, x) by {
                    assert(among(before, x) <==> roots_made(roots@, x) || known_made(a, x));
                    if known_made(a, x) {
                        let j = choose|j: int| 0 <= j < a.len() && entry_made(#[trigger] a[j], x);
                        assert(b[j] == a[j]);
                    }
                    if known_made(b, x) {
                        let j = choose|j: int| 0 <= j < b.len() && entry_made(#[trigger] b[j], x);
                        if j < k {
                            assert(a[j] == b[j]);
                        }
                    }
                    assert(b[k as int] == known@[k as int]);
                }
            }
            k += 1;
        }
        proof {
            assert(known@.take(k as int) =~= known@);
            assert forall|h: nat| #[trigger] tx.chunks_ok(h) && trusty(&tx.objects) implies forall|
                obj: Seq<u8>,
            |
                #[trigger] among(deps@, obj) <==> needed(
                    *decode,
                    *ep,
                    tx.chunks(),
                    roots@,
                    cap as nat,
                    obj,
                ) by {
                assert forall|obj: Seq<u8>| #[trigger] among(deps@, obj) <==> needed(
                    *decode,
                    *ep,
                    tx.chunks(),
                    roots@,
                    cap as nat,
                    obj,
                ) by {
                    lemma_needed(*decode, *ep, tx.chunks(), roots@, cap as nat, known@, obj);
                }
            }
        }
        Ok(deps)
    }

    /// The chunks within `cap` references of the roots.
    fn reach_chunks<F: Fn(&[u8]) -> Option<Descriptor>>(
        ep: &Epoch,
        tx: &Tx<'_, B>,
        roots: &Vec<Descriptor>,
        cap: u8,
        decode: &F,
    ) -> (r: Result<Known, StoreError>)
        requires
            ep.wf(),
            steady(*decode),
        ensures
            forall|h: nat| #[trigger]
                tx.chunks_ok(h) && trusty(&tx.objects) ==> match r {
                    Ok(known) => sound(*decode, *ep, tx.chunks(), known@) && forall|x: Seq<u8>|
                        #[trigger]
                        knows(known@, x) <==> near(
                            *decode,
                            *ep,
                            tx.chunks(),
                            roots@,
                            cap as nat,
                            x,
                        ),
                    Err(_) => strained(*tx, h),
                },
    {
        if cap == 0 {
            return Ok(Vec::new());
        }
        let mut known = match Self::add_roots(roots, ep, tx, decode) {
            Ok(known) => known,
            Err(e) => return Err(e),
        };
        let mut k: u8 = 1;
        proof {
            assert forall|x: Seq<u8>| #[trigger] knows(known@, x) <==> near(
                *decode,
                *ep,
                tx.chunks(),
                roots@,
                1,
                x,
            ) by {
                lemma_first_step(*decode, *ep, tx.chunks(), roots@, x);
            }
        }
        while k < cap
            invariant
                1 <= k <= cap,
                ep.wf(),
                steady(*decode),
                forall|h: nat| #[trigger]
                    tx.chunks_ok(h) && trusty(&tx.objects) ==> sound(
                        *decode,
                        *ep,
                        tx.chunks(),
                        known@,
                    ) && forall|x: Seq<u8>| #[trigger]
                        knows(known@, x) <==> near(
                            *decode,
                            *ep,
                            tx.chunks(),
                            roots@,
                            k as nat,
                            x,
                        ),
            decreases cap - k,
        {
            let ghost before = known@;
            match Self::add_level(&mut known, ep, tx, decode) {
                Ok(_) => {},
                Err(e) => return Err(e),
            }
            proof {
                assert forall|h: nat| #[trigger] tx.chunks_ok(h) && trusty(&tx.objects) implies forall|
                    x: Seq<u8>,
                |
                    #[trigger] knows(known@, x) <==> near(
                        *decode,
                        *ep,
                        tx.chunks(),
                        roots@,
                        (k + 1) as nat,
                        x,
                    ) by {
                    assert forall|x: Seq<u8>| #[trigger] knows(known@, x) <==> near(
                        *decode,
                        *ep,
                        tx.chunks(),
                        roots@,
                        (k + 1) as nat,
                        x,
                    ) by {
                        lemma_level(
                            *decode,
                            *ep,
                            tx.chunks(),
                            roots@,
                            k as nat,
                            before,
                            x,
                        );
                    }
                }
            }
            k += 1;
        }
        Ok(known)
    }
}

/// Some root is made from the object.
pub open spec fn roots_made(roots: Seq<Descriptor>, obj: Seq<u8>) -> bool {
    exists|i: int| 0 <= i < roots.len() && among(objects_of((#[trigger] roots[i]).form), obj)
}

pub open spec fn entry_made(e: (ChunkId, Option<Descriptor>), obj: Seq<u8>) -> bool {
    e.1 matches Some(d) && among(objects_of(d.form), obj)
}

/// Some chunk that was reached is made from the object.
pub open spec fn known_made(known: Seq<(ChunkId, Option<Descriptor>)>, obj: Seq<u8>) -> bool {
    exists|i: int| 0 <= i < known.len() && entry_made(#[trigger] known[i], obj)
}

proof fn lemma_first_step<F: Fn(&[u8]) -> Option<Descriptor>>(
    f: F,
    ep: Epoch,
    cs: Listing,
    roots: Seq<Descriptor>,
    x: Seq<u8>,
)
    ensures
        near(f, ep, cs, roots, 1, x) <==> root_refers(roots, x),
{
    reveal_with_fuel(near, 2);
}

proof fn lemma_needed<F: Fn(&[u8]) -> Option<Descriptor>>(
    f: F,
    ep: Epoch,
    cs: Listing,
    roots: Seq<Descriptor>,
    k: nat,
    known: Seq<(ChunkId, Option<Descriptor>)>,
    obj: Seq<u8>,
)
    requires
        sound(f, ep, cs, known),
        forall|y: Seq<u8>| #[trigger] knows(known, y) <==> near(f, ep, cs, roots, k, y),
    ensures
        needed(f, ep, cs, roots, k, obj) <==> roots_made(roots, obj) || known_made(known, obj),
{
    if known_made(known, obj) {
        let i = choose|i: int| 0 <= i < known.len() && entry_made(#[trigger] known[i], obj);
        assert(knows(known, known[i].0@));
        assert(made_from(f, ep, cs, known[i].0@, obj));
    }
    if exists|y: Seq<u8>| #[trigger] near(f, ep, cs, roots, k, y) && made_from(f, ep, cs, y, obj) {
        let y = choose|y: Seq<u8>| #[trigger]
            near(f, ep, cs, roots, k, y) && made_from(f, ep, cs, y, obj);
        assert(knows(known, y));
        let i = choose|i: int| 0 <= i < known.len() && (#[trigger] known[i]).0@ == y;
        assert(entry_made(known[i], obj));
    }
}

// ---------------------------------------------------------------------------
// Fetching
// ---------------------------------------------------------------------------

/// An object as a read finds it: stored, else staged by a pending operation.
pub open spec fn found<B: IoBackend>(st: Store<B>, id: Seq<u8>, r: Option<Vec<u8>>) -> bool {
    match r {
        Some(b) => (st.objects().contains(b@) && digest(b@) == id) || (
        lookup(st.epoch.staged_payloads@, id) matches Some(p) && b@ == p@),
        None => (forall|b: Seq<u8>| #[trigger] st.objects().contains(b) ==> digest(b) != id)
            && lookup(st.epoch.staged_payloads@, id) is None,
    }
}

impl<B: IoBackend> Store<B> {
    /// Fetch what a read needs in one call of the transport; what is not stored yet
    /// comes from the pending operations. The i-th result answers the i-th id.
    pub fn materialize_prepare(&self, deps: &Vec<ChunkId>) -> (r: Result<
        Vec<Option<Vec<u8>>>,
        StoreError,
    >)
        requires
            self.ready(),
        ensures
            match r {
                Ok(v) => v@.len() == deps@.len() && forall|i: int|
                    0 <= i < deps@.len() ==> found(*self, deps@[i]@, #[trigger] v@[i]),
                Err(_) => !self.io.reliable(),
            },
    {
        let mut results = self.fetch_objects_many(deps);
        let ghost all = results@;
        let mut out: Vec<Option<Vec<u8>>> = Vec::new();
        assert(all.skip(0) =~= all);
        while results.len() > 0
            invariant
                self.ready(),
                all.len() == deps@.len(),
                out@.len() <= all.len(),
                results@ == all.skip(out@.len() as int),
                forall|i: int|
                    0 <= i < deps@.len() ==> fetched(*self, deps@[i]@, #[trigger] all[i]),
                forall|i: int|
                    0 <= i < out@.len() ==> found(*self, deps@[i]@, #[trigger] out@[i]),
            decreases results@.len(),
        {
            let ghost at = out@.len() as int;
            let one = results.remove(0);
            proof {
                assert(one == all[at]);
                assert(fetched(*self, deps@[at]@, all[at]));
                assert(results@ =~= all.skip(at + 1));
            }
            let id = deps[out.len()];
            match one {
                Ok(Some(b)) => {
                    out.push(Some(b));
                },
                Ok(None) => {
                    match self.epoch.staged_payloads.get(id.as_slice()) {
                        Some(p) => {
                            let b = copy_bytes(p);
                            out.push(Some(b));
                        },
                        None => {
                            out.push(None);
                        },
                    }
                },
                Err(e) => return Err(e),
            }
        }
        Ok(out)
    }
}

} // verus!
