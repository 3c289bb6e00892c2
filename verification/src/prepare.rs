//! Decisions of a write about how its chunks are stored: what a chunk may be
//! encoded against, when the encoding of an earlier chunk of the batch is reused,
//! and when a chunk has to be encoded again.

use vstd::prelude::*;

use crate::bytes::copy_bytes;
use crate::chunk::{digest, ChunkId};
use crate::compose::{find_chunk, held_chunk, WriteOverlay};
use crate::error::StoreError;
use crate::io::written;
use crate::map::SortedMap;
use crate::sorted::{has_key, lemma_lookup_upsert, lookup, upsert};
use crate::window::{size_after, Extent};

verus! {

/// Where the previous version of a chunk comes from, as a base to encode against.
#[derive(Debug, Clone, Copy, PartialEq, Eq)]
pub enum EditBase {
    /// There is none that the store could resolve.
    Nothing,
    /// The old content that was read for the write.
    OldBytes,
    /// The stored chunk at the same place.
    Stored,
}

/// The previous version of a chunk: none where the batch already changed it or the
/// file did not reach it; else the old content, where it spans the new chunk.
pub fn edit_base(from_overlay: bool, full: bool, old_size: u64, chunk_off: u64, chunk_len: u64) -> (r:
    EditBase)
    ensures
        r == if from_overlay || old_size <= chunk_off {
            EditBase::Nothing
        } else if full {
            EditBase::Stored
        } else if old_size >= chunk_off + chunk_len {
            EditBase::OldBytes
        } else {
            EditBase::Nothing
        },
{
    if from_overlay || old_size <= chunk_off {
        return EditBase::Nothing;
    }
    if full {
        return EditBase::Stored;
    }
    if old_size - chunk_off >= chunk_len {
        EditBase::OldBytes
    } else {
        EditBase::Nothing
    }
}

/// Where the dictionary of a chunk comes from: the chunk before it.
#[derive(Debug, Clone, Copy, PartialEq, Eq)]
pub enum DictionarySource {
    /// The first chunk has none.
    Nothing,
    /// The chunk at this offset, as the batch made it.
    Batch { offset: u64 },
    /// The chunk at this offset, as it is stored.
    Stored { offset: u64 },
}

/// The dictionary of the chunk at an offset.
pub open spec fn dictionary_of(o: WriteOverlay, off: u64) -> DictionarySource {
    if off < o.class {
        DictionarySource::Nothing
    } else if held_chunk(o.chunks@, (off - o.class) as u64) is Some {
        DictionarySource::Batch { offset: (off - o.class) as u64 }
    } else {
        DictionarySource::Stored { offset: (off - o.class) as u64 }
    }
}

impl WriteOverlay {
    /// The dictionary of a chunk is the previous chunk of the file, of the batch where
    /// the batch changed it.
    pub fn dictionary_source(&self, chunk_off: u64) -> (r: DictionarySource)
        ensures
            r == dictionary_of(*self, chunk_off),
    {
        if chunk_off < self.class {
            return DictionarySource::Nothing;
        }
        let offset: u64 = chunk_off - self.class;
        match find_chunk(&self.chunks, offset) {
            Some(_) => DictionarySource::Batch { offset },
            None => DictionarySource::Stored { offset },
        }
    }
}

/// How a chunk of a batch is stored.
#[derive(Debug, Clone, Copy, PartialEq, Eq)]
pub enum Reuse {
    /// By an encoding of its own.
    Encode,
    /// By the descriptor of the same content earlier in the batch.
    Canonical,
    /// By a reference to it.
    Alias,
}

/// What a batch has encoded so far; of each content the first encoding counts.
pub struct PendingBatch {
    /// Descriptor bytes, by content id.
    pub descriptors: SortedMap<Vec<u8>>,
    /// Reference depths, by content id.
    pub depths: SortedMap<u8>,
    /// Payloads of staged objects, by object id.
    pub objects: SortedMap<Vec<u8>>,
}

/// Bind a key where it is free.
pub open spec fn first_wins<V>(s: Seq<(Seq<u8>, V)>, k: Seq<u8>, v: V) -> Seq<(Seq<u8>, V)> {
    if has_key(s, k) {
        s
    } else {
        upsert(s, k, v)
    }
}

/// Bind each key where it is free.
pub open spec fn all_first_win(
    s: Seq<(Seq<u8>, Vec<u8>)>,
    new: Seq<(ChunkId, Vec<u8>)>,
) -> Seq<(Seq<u8>, Vec<u8>)>
    decreases new.len(),
{
    if new.len() == 0 {
        s
    } else {
        first_wins(all_first_win(s, new.drop_last()), new.last().0@, new.last().1)
    }
}

impl PendingBatch {
    pub open spec fn wf(&self) -> bool {
        &&& self.descriptors.wf()
        &&& self.depths.wf()
        &&& self.objects.wf()
    }

    /// An empty batch.
    pub fn new() -> (r: PendingBatch)
        ensures
            r.wf(),
            r.descriptors@.len() == 0,
            r.depths@.len() == 0,
            r.objects@.len() == 0,
    {
        PendingBatch {
            descriptors: SortedMap::new(),
            depths: SortedMap::new(),
            objects: SortedMap::new(),
        }
    }

    /// How to store a content: encoded where the batch has not had it, else by the
    /// cheaper of its descriptor and a reference to it.
    pub fn reuse(&self, cid: &ChunkId, alias_cost: Option<u64>) -> (r: Reuse)
        requires
            self.wf(),
        ensures
            r == reuse_of(self.descriptors@, cid@, alias_cost),
    {
        match self.descriptors.get(cid.as_slice()) {
            None => Reuse::Encode,
            Some(d) => match alias_cost {
                Some(c) => if c < d.len() as u64 {
                    Reuse::Alias
                } else {
                    Reuse::Canonical
                },
                None => Reuse::Canonical,
            },
        }
    }

    /// The reference depth of a content of the batch; zero where it has none.
    pub fn depth_of(&self, cid: &ChunkId) -> (r: u8)
        requires
            self.wf(),
        ensures
            r == match lookup(self.depths@, cid@) {
                Some(d) => d,
                None => 0,
            },
    {
        match self.depths.get(cid.as_slice()) {
            Some(d) => *d,
            None => 0,
        }
    }

    /// Register an encoded chunk, so that later chunks of the batch can refer to it.
    /// A reference to another chunk is not registered; its objects are.
    pub fn register(
        &mut self,
        cid: &ChunkId,
        is_alias: bool,
        descriptor: Vec<u8>,
        depth: u8,
        objects: Vec<(ChunkId, Vec<u8>)>,
    )
        requires
            old(self).wf(),
        ensures
            final(self).wf(),
            is_alias ==> final(self).descriptors == old(self).descriptors && final(self).depths
                == old(self).depths,
            !is_alias ==> final(self).descriptors@ == first_wins(
                old(self).descriptors@,
                cid@,
                descriptor,
            ) && final(self).depths@ == first_wins(old(self).depths@, cid@, depth),
            final(self).objects@ == all_first_win(old(self).objects@, objects@),
    {
        if !is_alias {
            if !self.descriptors.contains(cid.as_slice()) {
                let key = copy_bytes(cid.as_slice());
                self.descriptors.insert(key, descriptor);
            }
            if !self.depths.contains(cid.as_slice()) {
                let key = copy_bytes(cid.as_slice());
                self.depths.insert(key, depth);
            }
        }
        let ghost all = objects@;
        let ghost start = self.objects@;
        let ghost kept = *self;
        let mut rest = objects;
        let ghost mut done: int = 0;
        proof {
            assert(all.take(0) =~= Seq::empty());
            assert(all.skip(0) =~= all);
        }
        while rest.len() > 0
            invariant
                self.wf(),
                self.descriptors == kept.descriptors,
                self.depths == kept.depths,
                0 <= done <= all.len(),
                rest@ == all.skip(done),
                self.objects@ == all_first_win(start, all.take(done)),
            decreases rest@.len(),
        {
            let (id, payload) = rest.remove(0);
            proof {
                let t = all.take(done + 1);
                assert(t.drop_last() =~= all.take(done));
                assert(t.last() == (id, payload));
                assert(rest@ =~= all.skip(done + 1));
                done = done + 1;
            }
            if !self.objects.contains(id.as_slice()) {
                let key = copy_bytes(id.as_slice());
                self.objects.insert(key, payload);
            }
        }
        assert(all.take(done) =~= all);
    }
}

/// Whether a chunk is encoded again: its encoding was checked against an assumed
/// dictionary, or rests on other chunks, and does not hold in the batch as it is.
pub fn needs_redo(synthetic: bool, depth: u8, valid: bool) -> (r: bool)
    ensures
        r == ((synthetic || depth > 0) && !valid),
{
    (synthetic || depth > 0) && !valid
}

/// What becomes of a chunk that was encoded again: refused where it still does not
/// hold, or where it rests on too long a chain.
pub fn check_redo(valid: bool, depth: u8, cap: u8) -> (r: Result<(), StoreError>)
    ensures
        r is Ok <==> valid && depth <= cap,
        r matches Err(e) ==> e is Invariant,
{
    if !valid {
        return Err(StoreError::Invariant("fallback re-encode failed validation".to_string()));
    }
    if depth > cap {
        return Err(StoreError::Invariant("fallback re-encode still exceeds the decode cap".to_string()));
    }
    Ok(())
}

/// Each content of a batch is encoded once: once it is registered, it is reused, by
/// the descriptor that was registered first.
pub proof fn content_is_encoded_once(s: Seq<(Seq<u8>, Vec<u8>)>, k: Seq<u8>, a: Vec<u8>, b: Vec<u8>)
    requires
        crate::sorted::sorted(s),
    ensures
        has_key(first_wins(s, k, a), k),
        first_wins(first_wins(s, k, a), k, b) == first_wins(s, k, a),
        !has_key(s, k) ==> lookup(first_wins(first_wins(s, k, a), k, b), k) == Some(a),
{
    if !has_key(s, k) {
        lemma_lookup_upsert(s, k, a, k);
        crate::sorted::lemma_upsert_sorted(s, k, a);
    }
}

// ---------------------------------------------------------------------------
// A write, from its chunks to their place in the batch
// ---------------------------------------------------------------------------

/// A chunk of a write, ready to be encoded.
#[derive(Debug)]
pub struct Composed {
    pub chunk_off: u64,
    pub bytes: Vec<u8>,
    pub cid: ChunkId,
    /// The previous version to encode against.
    pub base: EditBase,
    /// The dictionary to encode with.
    pub dictionary: DictionarySource,
}

/// The previous version of a chunk that a write changes.
pub open spec fn base_of(
    o: WriteOverlay,
    off: u64,
    offset: u64,
    end: u64,
    stored_size: u64,
    len: nat,
) -> EditBase {
    let full = offset <= off && off + o.class <= end;
    if (!full && held_chunk(o.chunks@, off) is Some) || stored_size <= off {
        EditBase::Nothing
    } else if full {
        EditBase::Stored
    } else if stored_size >= off + len {
        EditBase::OldBytes
    } else {
        EditBase::Nothing
    }
}

/// The chunk is what the batch made of it, under its own id.
pub open spec fn composed_of(
    was: WriteOverlay,
    now: WriteOverlay,
    c: Composed,
    off: u64,
    offset: u64,
    end: u64,
    stored_size: u64,
) -> bool {
    &&& c.chunk_off == off
    &&& held_chunk(now.chunks@, off) == Some(c.bytes@)
    &&& c.cid@ == digest(c.bytes@)
    &&& c.base == base_of(was, off, offset, end, stored_size, c.bytes@.len())
    &&& c.dictionary == dictionary_of(now, off)
}

/// Compose the chunks of a write over the batch: their bytes, ids, and what each may
/// be encoded against. `stored_size` is the size of the file as it is stored.
pub fn prepare_write(
    overlay: &mut WriteOverlay,
    offset: u64,
    data: &[u8],
    reads: &Vec<Extent>,
    stored_size: u64,
) -> (r: Option<Vec<Composed>>)
    requires
        old(overlay).class > 0,
        old(overlay).class <= usize::MAX,
    ensures
        data@.len() == 0 ==> (r matches Some(v) && v@.len() == 0) && *final(overlay)
            == *old(overlay),
        data@.len() > 0 ==> match r {
            Some(v) => {
                let end = (offset + data@.len()) as u64;
                &&& offset + data@.len() <= u64::MAX
                &&& v@.len() == (end + old(overlay).class - 1) / (old(overlay).class as int)
                    - offset / old(overlay).class
                &&& final(overlay).class == old(overlay).class
                &&& final(overlay).size == size_after(old(overlay).size, end)
                &&& forall|file: Seq<u8>|
                    #![trigger old(overlay).shows(file)]
                    old(overlay).shows(file) && old(overlay).reads_shown(
                        offset,
                        data@.len(),
                        reads@,
                        file,
                    ) ==> final(overlay).shows(written(file, offset as nat, data@))
                &&& forall|i: int|
                    0 <= i < v@.len() ==> composed_of(
                        *old(overlay),
                        *final(overlay),
                        #[trigger] v@[i],
                        ((offset / old(overlay).class + i) * old(overlay).class) as u64,
                        offset,
                        end,
                        stored_size,
                    )
            },
            None => *final(overlay) == *old(overlay) && offset + data@.len() + old(overlay).class
                > u64::MAX,
        },
{
    let ghost was = *overlay;
    if data.len() == 0 {
        return Some(Vec::new());
    }
    let class: u64 = overlay.class;
    let held = held_starts(&overlay.chunks);
    let starts = match overlay.apply(offset, data, reads) {
        Some(v) => v,
        None => {
            return None;
        },
    };
    let end: u64 = offset + data.len() as u64;
    let ghost now = *overlay;
    let mut out: Vec<Composed> = Vec::new();
    let mut i: usize = 0;
    while i < starts.len()
        invariant
            i <= starts@.len(),
            *overlay == now,
            class == was.class,
            now.class == was.class,
            end == offset + data@.len(),
            out@.len() == i,
            forall|x: u64| #[trigger] held@.contains(x) <==> held_chunk(was.chunks@, x) is Some,
            forall|j: int|
                0 <= j < starts@.len() ==> #[trigger] starts@[j] == (offset / was.class + j)
                    * was.class && held_chunk(now.chunks@, starts@[j]) is Some,
            forall|j: int|
                0 <= j < i ==> composed_of(
                    was,
                    now,
                    #[trigger] out@[j],
                    ((offset / was.class + j) * was.class) as u64,
                    offset,
                    end,
                    stored_size,
                ),
        decreases starts@.len() - i,
    {
        let chunk_off: u64 = starts[i];
        let bytes = match find_chunk(&overlay.chunks, chunk_off) {
            Some(at) => copy_bytes(&overlay.chunks[at].1),
            None => Vec::new(),
        };
        let full = offset <= chunk_off && chunk_off <= end && class <= end - chunk_off;
        let from_batch = !full && contains_start(&held, chunk_off);
        let base = edit_base(from_batch, full, stored_size, chunk_off, bytes.len() as u64);
        let cid = ChunkId::of(&bytes);
        let dictionary = overlay.dictionary_source(chunk_off);
        out.push(Composed { chunk_off, bytes, cid, base, dictionary });
        i += 1;
    }
    Some(out)
}

fn held_starts(chunks: &Vec<Extent>) -> (r: Vec<u64>)
    ensures
        forall|x: u64| #[trigger] r@.contains(x) <==> held_chunk(chunks@, x) is Some,
{
    let mut out: Vec<u64> = Vec::new();
    let mut i: usize = 0;
    while i < chunks.len()
        invariant
            i <= chunks@.len(),
            out@.len() == i,
            forall|j: int| 0 <= j < i ==> #[trigger] out@[j] == chunks@[j].0,
        decreases chunks@.len() - i,
    {
        out.push(chunks[i].0);
        i += 1;
    }
    proof {
        assert forall|x: u64| #[trigger] out@.contains(x) <==> held_chunk(chunks@, x) is Some by {
            crate::compose::lemma_held(chunks@, x);
            if out@.contains(x) {
                let j = choose|j: int| 0 <= j < out@.len() && out@[j] == x;
                assert(chunks@[j].0 == x);
            }
            if held_chunk(chunks@, x) is Some {
                let j = choose|j: int| 0 <= j < chunks@.len() && (#[trigger] chunks@[j]).0 == x;
                assert(out@[j] == x);
            }
        }
    }
    out
}

fn contains_start(v: &Vec<u64>, x: u64) -> (r: bool)
    ensures
        r == v@.contains(x),
{
    let mut i: usize = 0;
    while i < v.len()
        invariant
            i <= v@.len(),
            forall|j: int| 0 <= j < i ==> #[trigger] v@[j] != x,
        decreases v@.len() - i,
    {
        if v[i] == x {
            return true;
        }
        i += 1;
    }
    false
}

/// An encoding of a chunk, and how it was found to hold.
#[derive(Debug)]
pub struct Encoded {
    pub descriptor: Vec<u8>,
    /// The descriptor refers to another chunk of the same bytes.
    pub is_alias: bool,
    /// It was checked against an assumed dictionary.
    pub synthetic: bool,
    /// The length of the chain it rests on, in the batch as it is.
    pub depth: u8,
    /// It reads back, in the batch as it is.
    pub valid: bool,
    pub objects: Vec<(ChunkId, Vec<u8>)>,
}

/// What becomes of a chunk of a batch.
#[derive(Debug, Clone, Copy, PartialEq, Eq)]
pub enum Verdict {
    /// It takes the descriptor that the batch has for its content.
    Canonical,
    /// It refers to it.
    Alias,
    /// Its encoding stands.
    Keep,
    /// It is encoded again.
    Redo,
}

/// What becomes of a chunk whose descriptor the batch may hold.
pub open spec fn reuse_of(
    s: Seq<(Seq<u8>, Vec<u8>)>,
    cid: Seq<u8>,
    alias_cost: Option<u64>,
) -> Reuse {
    match lookup(s, cid) {
        None => Reuse::Encode,
        Some(d) => match alias_cost {
            Some(c) => if c < d@.len() {
                Reuse::Alias
            } else {
                Reuse::Canonical
            },
            None => Reuse::Canonical,
        },
    }
}

/// The batch after an encoding was registered.
pub open spec fn registered(a: PendingBatch, b: PendingBatch, cid: Seq<u8>, e: Encoded) -> bool {
    &&& b.wf()
    &&& e.is_alias ==> b.descriptors == a.descriptors && b.depths == a.depths
    &&& !e.is_alias ==> b.descriptors@ == first_wins(a.descriptors@, cid, e.descriptor)
        && b.depths@ == first_wins(a.depths@, cid, e.depth)
    &&& b.objects@ == all_first_win(a.objects@, e.objects@)
}

impl PendingBatch {
    /// Place a chunk of the batch: a content that was there is reused; an encoding
    /// that does not hold in the batch as it is goes back; any other is registered.
    pub fn settle(&mut self, cid: &ChunkId, alias_cost: Option<u64>, e: Encoded) -> (r: Verdict)
        requires
            old(self).wf(),
        ensures
            final(self).wf(),
            match lookup(old(self).descriptors@, cid@) {
                Some(d) => *final(self) == *old(self) && r == (if alias_cost matches Some(c) && c
                    < d@.len() {
                    Verdict::Alias
                } else {
                    Verdict::Canonical
                }),
                None => if (e.synthetic || e.depth > 0) && !e.valid {
                    r == Verdict::Redo && *final(self) == *old(self)
                } else {
                    r == Verdict::Keep && registered(*old(self), *final(self), cid@, e)
                },
            },
    {
        match self.reuse(cid, alias_cost) {
            Reuse::Canonical => {
                return Verdict::Canonical;
            },
            Reuse::Alias => {
                return Verdict::Alias;
            },
            Reuse::Encode => {},
        }
        if needs_redo(e.synthetic, e.depth, e.valid) {
            return Verdict::Redo;
        }
        self.register(cid, e.is_alias, e.descriptor, e.depth, e.objects);
        Verdict::Keep
    }

    /// Place a chunk that was encoded again.
    pub fn settle_redo(&mut self, cid: &ChunkId, e: Encoded, cap: u8) -> (r: Result<(), StoreError>)
        requires
            old(self).wf(),
        ensures
            final(self).wf(),
            match r {
                Ok(_) => e.valid && e.depth <= cap && registered(*old(self), *final(self), cid@, e),
                Err(x) => x is Invariant && !(e.valid && e.depth <= cap) && *final(self)
                    == *old(self),
            },
    {
        match check_redo(e.valid, e.depth, cap) {
            Ok(_) => {},
            Err(x) => return Err(x),
        }
        self.register(cid, e.is_alias, e.descriptor, e.depth, e.objects);
        Ok(())
    }
}

} // verus!
