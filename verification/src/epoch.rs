//! The active epoch: acknowledged mutations that shadow the committed trees.
//!
//! Between checkpoints an operation is staged here and recorded in the log; the
//! committed trees still describe the last checkpoint. The overlay is what a
//! later operation reads, and what the next checkpoint merges.

use vstd::prelude::*;

use crate::bytes::{append_bytes, copy_bytes, u64_be};
use crate::chunk::ChunkId;
use crate::directory::{entry_bytes, DirEntry};
use crate::extent_tree::extent_key_of;
use crate::fs::{ino_key, key_ino, lemma_has_key, lemma_ino_key, lemma_key_ino, rootless, Item, Listing, Namespace};
use crate::inode::{inode_ok, Inode, InodeView};
use crate::codec::{scan_u64, CodecError};
use crate::error::StoreError;
use crate::log::{decode_envelope, encode_envelope, envelope_bytes, envelope_seq, op_ok,
    parse_envelope, MutationOp, OpView};
use crate::map::SortedMap;
use crate::namespace::opt_inode;
use crate::sorted::{erase, has_key, lemma_erase_sorted, lemma_lookup_erase, lemma_lookup_upsert, lemma_rank,
    lemma_upsert_sorted, lookup, rank, sorted, upsert};

verus! {

// ---------------------------------------------------------------------------
// The overlay
// ---------------------------------------------------------------------------

/// What an epoch holds over the committed namespace.
#[verifier::ext_equal]
pub struct Overlay {
    /// Metadata of created and changed inodes.
    pub inodes: Map<u64, InodeView>,
    /// Inodes dropped outright.
    pub gone: Set<u64>,
    /// Bound entries, by directory and name.
    pub names: Map<(u64, Seq<u8>), DirEntry>,
    /// Unbound entries, by directory and name.
    pub cuts: Set<(u64, Seq<u8>)>,
    /// Written extents, by file and offset key.
    pub extents: Map<(u64, Seq<u8>), Seq<u8>>,
    /// Descriptors of written chunks, by content id.
    pub chunks: Map<Seq<u8>, Seq<u8>>,
}

/// An item with what its data tree maps, in place of the order it lists it in.
#[verifier::ext_equal]
pub struct Face {
    pub inode: InodeView,
    pub entries: Map<Seq<u8>, Seq<u8>>,
    pub xattrs: Listing,
}

/// What a listing maps.
pub open spec fn mapped(s: Listing) -> Map<Seq<u8>, Seq<u8>> {
    Map::new(|k: Seq<u8>| lookup(s, k) is Some, |k: Seq<u8>| lookup(s, k)->0)
}

pub open spec fn face(it: Item) -> Face {
    Face { inode: it.inode, entries: mapped(it.entries), xattrs: it.xattrs }
}

pub open spec fn faces(n: Namespace) -> Map<u64, Face> {
    Map::new(|ino: u64| n.contains_key(ino), |ino: u64| face(n[ino]))
}

/// The committed entries of a number.
pub open spec fn base_entries(n: Namespace, ino: u64) -> Listing {
    if n.contains_key(ino) {
        n[ino].entries
    } else {
        Seq::empty()
    }
}

pub open spec fn base_xattrs(n: Namespace, ino: u64) -> Listing {
    if n.contains_key(ino) {
        n[ino].xattrs
    } else {
        Seq::empty()
    }
}

/// What the overlay leaves under a key of a number's data tree.
pub open spec fn slot(n: Namespace, o: Overlay, ino: u64, k: Seq<u8>) -> Option<Seq<u8>> {
    if o.cuts.contains((ino, k)) {
        None
    } else if o.names.contains_key((ino, k)) {
        Some(entry_bytes(o.names[(ino, k)]))
    } else if o.extents.contains_key((ino, k)) {
        Some(o.extents[(ino, k)])
    } else {
        lookup(base_entries(n, ino), k)
    }
}

/// A number is there, seen through the overlay.
pub open spec fn shown(n: Namespace, o: Overlay, ino: u64) -> bool {
    !o.gone.contains(ino) && (o.inodes.contains_key(ino) || n.contains_key(ino))
}

/// The metadata of a number, seen through the overlay.
pub open spec fn shown_inode(n: Namespace, o: Overlay, ino: u64) -> InodeView {
    if o.inodes.contains_key(ino) {
        rootless(o.inodes[ino])
    } else {
        n[ino].inode
    }
}

pub open spec fn shown_entries(n: Namespace, o: Overlay, ino: u64) -> Map<Seq<u8>, Seq<u8>> {
    Map::new(|k: Seq<u8>| slot(n, o, ino, k) is Some, |k: Seq<u8>| slot(n, o, ino, k)->0)
}

/// The committed namespace seen through the overlay.
pub open spec fn overlaid(n: Namespace, o: Overlay) -> Map<u64, Face> {
    Map::new(
        |ino: u64| shown(n, o, ino),
        |ino: u64|
            Face {
                inode: shown_inode(n, o, ino),
                entries: shown_entries(n, o, ino),
                xattrs: base_xattrs(n, ino),
            },
    )
}

// ---------------------------------------------------------------------------
// Keys
// ---------------------------------------------------------------------------

/// The key of a slot of a number's data tree.
pub open spec fn slot_key(ino: u64, k: Seq<u8>) -> Seq<u8> {
    ino_key(ino) + k
}

pub proof fn lemma_slot_key(a: u64, k: Seq<u8>, b: u64, l: Seq<u8>)
    ensures
        (slot_key(a, k) == slot_key(b, l)) == (a == b && k == l),
{
    lemma_ino_key(a, b);
    lemma_ino_key(b, a);
    let x = slot_key(a, k);
    let y = slot_key(b, l);
    assert(x.take(8) =~= ino_key(a));
    assert(y.take(8) =~= ino_key(b));
    assert(x.skip(8) =~= k);
    assert(y.skip(8) =~= l);
}

fn key_of_slot(ino: u64, k: &[u8]) -> (r: Vec<u8>)
    ensures
        r@ == slot_key(ino, k@),
{
    let mut key = u64_be(ino);
    append_bytes(&mut key, k);
    key
}

pub proof fn lemma_upsert_at<V>(s: Seq<(Seq<u8>, V)>, k: Seq<u8>, v: V)
    requires
        sorted(s),
    ensures
        sorted(upsert(s, k, v)),
        forall|q: Seq<u8>| #[trigger]
            lookup(upsert(s, k, v), q) == if q == k {
                Some(v)
            } else {
                lookup(s, q)
            },
{
    lemma_upsert_sorted(s, k, v);
    assert forall|q: Seq<u8>| #[trigger] lookup(upsert(s, k, v), q) == if q == k {
        Some(v)
    } else {
        lookup(s, q)
    } by {
        lemma_lookup_upsert(s, k, v, q);
    }
}

pub proof fn lemma_erase_at<V>(s: Seq<(Seq<u8>, V)>, k: Seq<u8>)
    requires
        sorted(s),
    ensures
        sorted(erase(s, k)),
        forall|q: Seq<u8>| #[trigger]
            lookup(erase(s, k), q) == if q == k {
                None
            } else {
                lookup(s, q)
            },
{
    lemma_erase_sorted(s, k);
    assert forall|q: Seq<u8>| #[trigger] lookup(erase(s, k), q) == if q == k {
        None
    } else {
        lookup(s, q)
    } by {
        lemma_lookup_erase(s, k, q);
    }
}

// ---------------------------------------------------------------------------
// The epoch
// ---------------------------------------------------------------------------

/// The active epoch: pending state over the committed trees, the log sequence
/// and the objects staged since the last checkpoint.
pub struct Epoch {
    /// Last log sequence number given out.
    pub seq: u64,
    /// Final inodes (creates, attribute and parent updates), by number.
    pub pending_inodes: SortedMap<Inode>,
    /// Numbers dropped outright (unlink of the last link, rmdir).
    pub removed_inodes: SortedMap<()>,
    /// Entries bound (creates, rename destinations), by directory and name.
    pub pending_entries: SortedMap<DirEntry>,
    /// Entries unbound (unlinks, rename sources), by directory and name.
    pub removed_entries: SortedMap<()>,
    /// Descriptor bytes of written extents, by file and offset.
    pub pending_extents: SortedMap<Vec<u8>>,
    /// Descriptor bytes of written chunks, by content id.
    pub pending_chunks: SortedMap<Vec<u8>>,
    /// Ids of objects that earlier operations of the epoch staged.
    pub staged_objects: SortedMap<()>,
    /// Their payloads, by object id.
    pub staged_payloads: SortedMap<Vec<u8>>,
    /// Whether the log's feature bit has been persisted.
    pub feature_persisted: bool,
    /// Highest inode number given out; zero before the first.
    pub max_ino: u64,
}

/// Nothing is pending or staged, and no inode number was given out.
pub open spec fn fresh(ep: Epoch) -> bool {
    &&& ep@ == empty_overlay()
    &&& ep.staged_objects@.len() == 0
    &&& ep.max_ino == 0
}

pub open spec fn inode_map(s: Seq<(Seq<u8>, Inode)>) -> Map<u64, InodeView> {
    Map::new(
        |ino: u64| lookup(s, ino_key(ino)) is Some,
        |ino: u64| (lookup(s, ino_key(ino))->0)@,
    )
}

pub open spec fn number_set(s: Seq<(Seq<u8>, ())>) -> Set<u64> {
    Set::new(|ino: u64| lookup(s, ino_key(ino)) is Some)
}

pub open spec fn name_map(s: Seq<(Seq<u8>, DirEntry)>) -> Map<(u64, Seq<u8>), DirEntry> {
    Map::new(
        |p: (u64, Seq<u8>)| lookup(s, slot_key(p.0, p.1)) is Some,
        |p: (u64, Seq<u8>)| lookup(s, slot_key(p.0, p.1))->0,
    )
}

pub open spec fn slot_set(s: Seq<(Seq<u8>, ())>) -> Set<(u64, Seq<u8>)> {
    Set::new(|p: (u64, Seq<u8>)| lookup(s, slot_key(p.0, p.1)) is Some)
}

pub open spec fn extent_map(s: Seq<(Seq<u8>, Vec<u8>)>) -> Map<(u64, Seq<u8>), Seq<u8>> {
    Map::new(
        |p: (u64, Seq<u8>)| lookup(s, slot_key(p.0, p.1)) is Some,
        |p: (u64, Seq<u8>)| (lookup(s, slot_key(p.0, p.1))->0)@,
    )
}

pub open spec fn bytes_map(s: Seq<(Seq<u8>, Vec<u8>)>) -> Map<Seq<u8>, Seq<u8>> {
    Map::new(|k: Seq<u8>| lookup(s, k) is Some, |k: Seq<u8>| (lookup(s, k)->0)@)
}

impl View for Epoch {
    type V = Overlay;

    open spec fn view(&self) -> Overlay {
        Overlay {
            inodes: inode_map(self.pending_inodes@),
            gone: number_set(self.removed_inodes@),
            names: name_map(self.pending_entries@),
            cuts: slot_set(self.removed_entries@),
            extents: extent_map(self.pending_extents@),
            chunks: bytes_map(self.pending_chunks@),
        }
    }
}

/// Every key is that of a number.
pub open spec fn number_keys<V>(s: Seq<(Seq<u8>, V)>) -> bool {
    forall|i: int| 0 <= i < s.len() ==> (#[trigger] s[i]).0.len() == 8
}

/// Every key is that of a slot.
pub open spec fn slot_keys<V>(s: Seq<(Seq<u8>, V)>) -> bool {
    forall|i: int| 0 <= i < s.len() ==> (#[trigger] s[i]).0.len() >= 8
}

pub open spec fn inodes_ok(s: Seq<(Seq<u8>, Inode)>) -> bool {
    forall|i: int| 0 <= i < s.len() ==> inode_ok((#[trigger] s[i]).1@)
}

impl Epoch {
    /// Each map is in key order, and its keys are of its form.
    pub open spec fn wf(&self) -> bool {
        &&& sorted(self.pending_inodes@) && number_keys(self.pending_inodes@)
        &&& inodes_ok(self.pending_inodes@)
        &&& sorted(self.removed_inodes@) && number_keys(self.removed_inodes@)
        &&& sorted(self.pending_entries@) && slot_keys(self.pending_entries@)
        &&& sorted(self.removed_entries@) && slot_keys(self.removed_entries@)
        &&& sorted(self.pending_extents@) && slot_keys(self.pending_extents@)
        &&& sorted(self.pending_chunks@)
        &&& sorted(self.staged_objects@)
        &&& sorted(self.staged_payloads@)
    }

    /// An epoch with nothing pending.
    pub fn new() -> (r: Epoch)
        ensures
            r.wf(),
            r@ == empty_overlay(),
            r.seq == 0,
            r.max_ino == 0,
            !r.feature_persisted,
            r.staged_objects@.len() == 0,
            r.staged_payloads@.len() == 0,
    {
        let r = Epoch {
            seq: 0,
            pending_inodes: SortedMap::new(),
            removed_inodes: SortedMap::new(),
            pending_entries: SortedMap::new(),
            removed_entries: SortedMap::new(),
            pending_extents: SortedMap::new(),
            pending_chunks: SortedMap::new(),
            staged_objects: SortedMap::new(),
            staged_payloads: SortedMap::new(),
            feature_persisted: false,
            max_ino: 0,
        };
        assert(r@ =~= empty_overlay());
        r
    }

    /// Whether the epoch has any pending state.
    pub fn is_empty(&self) -> (r: bool)
        ensures
            self.wf() && r ==> self.seq == 0 && self@ == empty_overlay(),
            self.wf() && self.seq == 0 && self@ == empty_overlay() ==> r,
    {
        self.seq == 0 && self.quiet()
    }
}

/// Nothing over the committed namespace.
pub open spec fn empty_overlay() -> Overlay {
    Overlay {
        inodes: Map::empty(),
        gone: Set::empty(),
        names: Map::empty(),
        cuts: Set::empty(),
        extents: Map::empty(),
        chunks: Map::empty(),
    }
}

/// The binding at a place is the one that its key finds.
pub proof fn lemma_at<V>(s: Seq<(Seq<u8>, V)>, i: int)
    requires
        sorted(s),
        0 <= i < s.len(),
    ensures
        lookup(s, s[i].0) == Some(s[i].1),
{
    lemma_rank(s, s[i].0);
}

/// The parts of a slot's key.
pub proof fn lemma_slot_parts(k: Seq<u8>)
    requires
        k.len() >= 8,
    ensures
        slot_key(key_ino(k.take(8)), k.skip(8)) == k,
{
    lemma_key_ino(k.take(8));
    assert(k.take(8) + k.skip(8) =~= k);
}

proof fn lemma_first_number<V>(s: Seq<(Seq<u8>, V)>)
    requires
        sorted(s),
        number_keys(s),
        s.len() > 0,
    ensures
        lookup(s, ino_key(key_ino(s[0].0))) is Some,
{
    lemma_key_ino(s[0].0);
    lemma_at(s, 0);
}

proof fn lemma_first_slot<V>(s: Seq<(Seq<u8>, V)>)
    requires
        sorted(s),
        slot_keys(s),
        s.len() > 0,
    ensures
        lookup(s, slot_key(key_ino(s[0].0.take(8)), s[0].0.skip(8))) is Some,
{
    lemma_slot_parts(s[0].0);
    lemma_at(s, 0);
}

// ---------------------------------------------------------------------------
// Changes
// ---------------------------------------------------------------------------

/// Only the overlay differs.
pub open spec fn rest_kept(a: Epoch, b: Epoch) -> bool {
    &&& a.seq == b.seq
    &&& a.max_ino == b.max_ino
    &&& a.feature_persisted == b.feature_persisted
    &&& a.staged_objects == b.staged_objects
    &&& a.staged_payloads == b.staged_payloads
}

proof fn lemma_number_upsert<V>(s: Seq<(Seq<u8>, V)>, ino: u64, v: V)
    requires
        sorted(s),
        number_keys(s),
    ensures
        sorted(upsert(s, ino_key(ino), v)),
        number_keys(upsert(s, ino_key(ino), v)),
        forall|n: u64| #[trigger]
            lookup(upsert(s, ino_key(ino), v), ino_key(n)) == if n == ino {
                Some(v)
            } else {
                lookup(s, ino_key(n))
            },
{
    let k = ino_key(ino);
    lemma_upsert_at(s, k, v);
    lemma_ino_key(ino, ino);
    lemma_upsert_keys(s, k, v);
    assert forall|n: u64| #[trigger] lookup(upsert(s, k, v), ino_key(n)) == if n == ino {
        Some(v)
    } else {
        lookup(s, ino_key(n))
    } by {
        lemma_ino_key(n, ino);
    }
}

/// Every binding of an upserted listing is the new one or an old one.
pub proof fn lemma_upsert_keys<V>(s: Seq<(Seq<u8>, V)>, k: Seq<u8>, v: V)
    requires
        sorted(s),
    ensures
        forall|i: int|
            0 <= i < upsert(s, k, v).len() ==> (#[trigger] upsert(s, k, v)[i]) == (k, v)
                || s.contains(upsert(s, k, v)[i]),
{
    lemma_rank(s, k);
    let u = upsert(s, k, v);
    let r = rank(s, k);
    assert forall|i: int| 0 <= i < u.len() implies (#[trigger] u[i]) == (k, v) || s.contains(
        u[i],
    ) by {
        if i == r {
        } else if has_key(s, k) || i < r {
            assert(u[i] == s[i]);
        } else {
            assert(u[i] == s[i - 1]);
        }
    }
}

pub proof fn lemma_erase_keys<V>(s: Seq<(Seq<u8>, V)>, k: Seq<u8>)
    requires
        sorted(s),
    ensures
        forall|i: int| 0 <= i < erase(s, k).len() ==> s.contains(#[trigger] erase(s, k)[i]),
{
    lemma_rank(s, k);
    let u = erase(s, k);
    let r = rank(s, k);
    assert forall|i: int| 0 <= i < u.len() implies s.contains(#[trigger] u[i]) by {
        if has_key(s, k) && i >= r {
            assert(u[i] == s[i + 1]);
        } else {
            assert(u[i] == s[i]);
        }
    }
}

proof fn lemma_slot_upsert<V>(s: Seq<(Seq<u8>, V)>, ino: u64, k: Seq<u8>, v: V)
    requires
        sorted(s),
        slot_keys(s),
    ensures
        sorted(upsert(s, slot_key(ino, k), v)),
        slot_keys(upsert(s, slot_key(ino, k), v)),
        forall|n: u64, l: Seq<u8>| #[trigger]
            lookup(upsert(s, slot_key(ino, k), v), slot_key(n, l)) == if n == ino && l == k {
                Some(v)
            } else {
                lookup(s, slot_key(n, l))
            },
{
    let key = slot_key(ino, k);
    lemma_upsert_at(s, key, v);
    lemma_ino_key(ino, ino);
    lemma_upsert_keys(s, key, v);
    assert forall|n: u64, l: Seq<u8>| #[trigger] lookup(
        upsert(s, key, v),
        slot_key(n, l),
    ) == if n == ino && l == k {
        Some(v)
    } else {
        lookup(s, slot_key(n, l))
    } by {
        lemma_slot_key(n, l, ino, k);
    }
}

proof fn lemma_slot_erase<V>(s: Seq<(Seq<u8>, V)>, ino: u64, k: Seq<u8>)
    requires
        sorted(s),
        slot_keys(s),
    ensures
        sorted(erase(s, slot_key(ino, k))),
        slot_keys(erase(s, slot_key(ino, k))),
        forall|n: u64, l: Seq<u8>| #[trigger]
            lookup(erase(s, slot_key(ino, k)), slot_key(n, l)) == if n == ino && l == k {
                None
            } else {
                lookup(s, slot_key(n, l))
            },
{
    let key = slot_key(ino, k);
    lemma_erase_at(s, key);
    lemma_erase_keys(s, key);
    assert forall|n: u64, l: Seq<u8>| #[trigger] lookup(
        erase(s, key),
        slot_key(n, l),
    ) == if n == ino && l == k {
        None
    } else {
        lookup(s, slot_key(n, l))
    } by {
        lemma_slot_key(n, l, ino, k);
    }
}

impl Epoch {
    /// Give a number its metadata.
    pub fn put_inode(&mut self, ino: u64, inode: Inode)
        requires
            old(self).wf(),
            inode_ok(inode@),
        ensures
            final(self).wf(),
            rest_kept(*old(self), *final(self)),
            final(self)@ == (Overlay { inodes: old(self)@.inodes.insert(ino, inode@), ..old(self)@ }),
    {
        let ghost was = *self;
        let ghost s = self.pending_inodes@;
        self.pending_inodes.insert(u64_be(ino), inode);
        proof {
            lemma_number_upsert(s, ino, inode);
            lemma_upsert_keys(s, ino_key(ino), inode);
            assert(self@.inodes =~= was@.inodes.insert(ino, inode@));
        }
    }

    /// Drop a number outright.
    pub fn drop_inode(&mut self, ino: u64)
        requires
            old(self).wf(),
        ensures
            final(self).wf(),
            rest_kept(*old(self), *final(self)),
            final(self)@ == (Overlay { gone: old(self)@.gone.insert(ino), ..old(self)@ }),
    {
        let ghost was = *self;
        let ghost s = self.removed_inodes@;
        self.removed_inodes.insert(u64_be(ino), ());
        proof {
            lemma_number_upsert(s, ino, ());
            assert(self@.gone =~= was@.gone.insert(ino));
        }
    }

    /// Bind a name. A name unbound earlier in the epoch is bound again.
    pub fn bind_entry(&mut self, parent: u64, name: &[u8], entry: DirEntry)
        requires
            old(self).wf(),
        ensures
            final(self).wf(),
            rest_kept(*old(self), *final(self)),
            final(self)@ == (Overlay {
                names: old(self)@.names.insert((parent, name@), entry),
                cuts: old(self)@.cuts.remove((parent, name@)),
                ..old(self)@
            }),
    {
        let ghost was = *self;
        let ghost s = self.pending_entries@;
        let ghost t = self.removed_entries@;
        let key = key_of_slot(parent, name);
        self.removed_entries.remove(&key);
        self.pending_entries.insert(key, entry);
        proof {
            lemma_slot_upsert(s, parent, name@, entry);
            lemma_slot_erase(t, parent, name@);
            assert(self@.names =~= was@.names.insert((parent, name@), entry));
            assert(self@.cuts =~= was@.cuts.remove((parent, name@)));
        }
    }

    /// Unbind a name. A name bound earlier in the epoch is bound no more.
    pub fn unbind_entry(&mut self, parent: u64, name: &[u8])
        requires
            old(self).wf(),
        ensures
            final(self).wf(),
            rest_kept(*old(self), *final(self)),
            final(self)@ == (Overlay {
                names: old(self)@.names.remove((parent, name@)),
                cuts: old(self)@.cuts.insert((parent, name@)),
                ..old(self)@
            }),
    {
        let ghost was = *self;
        let ghost s = self.pending_entries@;
        let ghost t = self.removed_entries@;
        let key = key_of_slot(parent, name);
        self.pending_entries.remove(&key);
        self.removed_entries.insert(key, ());
        proof {
            lemma_slot_erase(s, parent, name@);
            lemma_slot_upsert(t, parent, name@, ());
            assert(self@.names =~= was@.names.remove((parent, name@)));
            assert(self@.cuts =~= was@.cuts.insert((parent, name@)));
        }
    }

    /// Write an extent.
    pub fn put_extent(&mut self, ino: u64, offset: u64, bytes: Vec<u8>)
        requires
            old(self).wf(),
        ensures
            final(self).wf(),
            rest_kept(*old(self), *final(self)),
            final(self)@ == (Overlay {
                extents: old(self)@.extents.insert((ino, extent_key_of(offset)), bytes@),
                ..old(self)@
            }),
    {
        let ghost was = *self;
        let ghost s = self.pending_extents@;
        let off = u64_be(offset);
        let key = key_of_slot(ino, &off);
        let ghost b = bytes;
        self.pending_extents.insert(key, bytes);
        proof {
            lemma_slot_upsert(s, ino, extent_key_of(offset), b);
            assert(self@.extents =~= was@.extents.insert((ino, extent_key_of(offset)), b@));
        }
    }

    /// Give a written chunk its descriptor, unless it has one.
    pub fn put_chunk(&mut self, cid: &ChunkId, bytes: Vec<u8>)
        requires
            old(self).wf(),
        ensures
            final(self).wf(),
            rest_kept(*old(self), *final(self)),
            final(self)@ == (Overlay {
                chunks: if old(self)@.chunks.contains_key(cid@) {
                    old(self)@.chunks
                } else {
                    old(self)@.chunks.insert(cid@, bytes@)
                },
                ..old(self)@
            }),
    {
        let ghost was = *self;
        let ghost s = self.pending_chunks@;
        match self.pending_chunks.get(cid.as_slice()) {
            Some(_) => {
                return;
            },
            None => {},
        }
        let ghost b = bytes;
        self.pending_chunks.insert(copy_bytes(cid.as_slice()), bytes);
        proof {
            lemma_upsert_at(s, cid@, b);
            assert(self@.chunks =~= was@.chunks.insert(cid@, b@));
        }
    }

    /// Register an object id as staged.
    pub fn mark_staged(&mut self, id: ChunkId)
        requires
            old(self).wf(),
        ensures
            final(self).wf(),
            final(self)@ == old(self)@,
            *final(self) == (Epoch { staged_objects: final(self).staged_objects, ..*old(self) }),
            forall|k: Seq<u8>| #[trigger]
                lookup(final(self).staged_objects@, k) is Some == (k == id@ || lookup(
                    old(self).staged_objects@,
                    k,
                ) is Some),
    {
        let ghost s = self.staged_objects@;
        self.staged_objects.insert(copy_bytes(id.as_slice()), ());
        proof {
            lemma_upsert_at(s, id@, ());
        }
    }

    /// Whether the object id was already staged by this epoch.
    pub fn is_staged(&self, id: &ChunkId) -> (r: bool)
        requires
            self.wf(),
        ensures
            r == (lookup(self.staged_objects@, id@) is Some),
    {
        self.staged_objects.contains(id.as_slice())
    }

    /// The inode of a number seen through the epoch, given the committed one:
    /// none where it was dropped, the pending one where there is one.
    pub fn overlay_inode(&self, ino: u64, committed: Option<Inode>) -> (r: Option<Inode>)
        requires
            self.wf(),
        ensures
            opt_inode(r) == if self@.gone.contains(ino) {
                None
            } else if self@.inodes.contains_key(ino) {
                Some(self@.inodes[ino])
            } else {
                opt_inode(committed)
            },
            (committed matches Some(c) ==> inode_ok(c@)) ==> (r matches Some(v) ==> inode_ok(v@)),
    {
        let key = u64_be(ino);
        proof {
            lemma_has_key(self.removed_inodes@, ino_key(ino));
        }
        if self.removed_inodes.contains(&key) {
            return None;
        }
        match self.pending_inodes.get(&key) {
            Some(i) => {
                proof {
                    lemma_has_key(self.pending_inodes@, ino_key(ino));
                    assert(inode_ok(self.pending_inodes@[rank(self.pending_inodes@, ino_key(ino))].1@));
                }
                Some(i.copy())
            },
            None => committed,
        }
    }

    /// The entry that the epoch binds to a name; none where it binds none or
    /// has unbound the name.
    pub fn overlay_entry(&self, parent: u64, name: &[u8]) -> (r: Option<DirEntry>)
        requires
            self.wf(),
        ensures
            r == if self@.cuts.contains((parent, name@)) {
                None
            } else if self@.names.contains_key((parent, name@)) {
                Some(self@.names[(parent, name@)])
            } else {
                None
            },
    {
        if self.is_cut(parent, name) {
            return None;
        }
        let key = key_of_slot(parent, name);
        match self.pending_entries.get(&key) {
            Some(e) => Some(*e),
            None => None,
        }
    }

    /// Whether the epoch has unbound a name.
    pub fn is_cut(&self, parent: u64, name: &[u8]) -> (r: bool)
        requires
            self.wf(),
        ensures
            r == self@.cuts.contains((parent, name@)),
    {
        let key = key_of_slot(parent, name);
        proof {
            lemma_has_key(self.removed_entries@, slot_key(parent, name@));
        }
        self.removed_entries.contains(&key)
    }

    /// The pending descriptor of a chunk.
    pub fn overlay_chunk(&self, cid: &ChunkId) -> (r: Option<Vec<u8>>)
        requires
            self.wf(),
        ensures
            match r {
                Some(b) => self@.chunks.contains_key(cid@) && b@ == self@.chunks[cid@],
                None => !self@.chunks.contains_key(cid@),
            },
    {
        match self.pending_chunks.get(cid.as_slice()) {
            Some(b) => Some(copy_bytes(b)),
            None => None,
        }
    }

    /// The pending extent descriptor at an offset of a file.
    pub fn overlay_extent(&self, ino: u64, offset: u64) -> (r: Option<Vec<u8>>)
        requires
            self.wf(),
        ensures
            match r {
                Some(b) => self@.extents.contains_key((ino, extent_key_of(offset))) && b@
                    == self@.extents[(ino, extent_key_of(offset))],
                None => !self@.extents.contains_key((ino, extent_key_of(offset))),
            },
    {
        let off = u64_be(offset);
        let key = key_of_slot(ino, &off);
        match self.pending_extents.get(&key) {
            Some(b) => Some(copy_bytes(b)),
            None => None,
        }
    }

    /// Encode an op into an envelope payload under the next sequence number.
    pub fn envelope(&mut self, op: &MutationOp) -> (r: Vec<u8>)
        requires
            op_ok(op@),
            old(self).seq < u64::MAX,
        ensures
            *final(self) == (Epoch { seq: (old(self).seq + 1) as u64, ..*old(self) }),
            r@ == envelope_bytes(final(self).seq, op@),
    {
        self.seq = self.seq + 1;
        encode_envelope(self.seq, op)
    }
}

/// An overlay with nothing in it has nothing in its maps.
proof fn lemma_quiet(ep: Epoch)
    requires
        ep.wf(),
        ep@ == empty_overlay(),
    ensures
        ep.pending_inodes@.len() == 0,
        ep.removed_inodes@.len() == 0,
        ep.pending_entries@.len() == 0,
        ep.removed_entries@.len() == 0,
        ep.pending_extents@.len() == 0,
        ep.pending_chunks@.len() == 0,
{
    let o = ep@;
    if ep.pending_inodes@.len() > 0 {
        lemma_first_number(ep.pending_inodes@);
        let k = key_ino(ep.pending_inodes@[0].0);
        assert(o.inodes.contains_key(k));
    }
    if ep.removed_inodes@.len() > 0 {
        lemma_first_number(ep.removed_inodes@);
        let k = key_ino(ep.removed_inodes@[0].0);
        assert(o.gone.contains(k));
    }
    if ep.pending_entries@.len() > 0 {
        lemma_first_slot(ep.pending_entries@);
        let k = ep.pending_entries@[0].0;
        assert(o.names.contains_key((key_ino(k.take(8)), k.skip(8))));
    }
    if ep.removed_entries@.len() > 0 {
        lemma_first_slot(ep.removed_entries@);
        let k = ep.removed_entries@[0].0;
        assert(o.cuts.contains((key_ino(k.take(8)), k.skip(8))));
    }
    if ep.pending_extents@.len() > 0 {
        lemma_first_slot(ep.pending_extents@);
        let k = ep.pending_extents@[0].0;
        assert(o.extents.contains_key((key_ino(k.take(8)), k.skip(8))));
    }
    if ep.pending_chunks@.len() > 0 {
        let s = ep.pending_chunks@;
        lemma_at(s, 0);
        assert(o.chunks.contains_key(s[0].0));
    }
}

impl Epoch {
    /// Whether nothing is pending that a checkpoint which consumed the log up to
    /// `floor` has not merged.
    pub fn is_idle(&self, floor: u64) -> (r: bool)
        ensures
            self.wf() && r ==> self.seq <= floor && self@ == empty_overlay(),
            self.wf() && self.seq <= floor && self@ == empty_overlay() ==> r,
    {
        self.quiet() && self.seq <= floor
    }

    /// Nothing is overlaid.
    fn quiet(&self) -> (r: bool)
        ensures
            self.wf() ==> r == (self@ == empty_overlay()),
    {
        let r = self.pending_inodes.is_empty() && self.removed_inodes.is_empty()
            && self.pending_entries.is_empty() && self.removed_entries.is_empty()
            && self.pending_extents.is_empty() && self.pending_chunks.is_empty();
        proof {
            if r {
                assert(self@ =~= empty_overlay());
            } else if self.wf() && self@ == empty_overlay() {
                lemma_quiet(*self);
            }
        }
        r
    }

    /// Drop what a checkpoint has merged: the overlay and the staged objects. The
    /// sequence and inode counters go on.
    pub fn retire(&mut self)
        ensures
            final(self).wf(),
            final(self)@ == empty_overlay(),
            final(self).seq == old(self).seq,
            final(self).max_ino == old(self).max_ino,
            final(self).feature_persisted == old(self).feature_persisted,
            final(self).staged_objects@.len() == 0,
            final(self).staged_payloads@.len() == 0,
    {
        self.pending_inodes.clear();
        self.removed_inodes.clear();
        self.pending_entries.clear();
        self.removed_entries.clear();
        self.pending_extents.clear();
        self.pending_chunks.clear();
        self.staged_objects.clear();
        self.staged_payloads.clear();
        assert(self@ =~= empty_overlay());
    }
}

impl Epoch {
    /// The sequence number of an envelope payload.
    pub fn envelope_seq(bytes: &[u8]) -> (r: Result<u64, StoreError>)
        ensures
            match r {
                Ok(seq) => scan_u64(Ok(bytes@)).1 is Ok && seq == scan_u64(Ok(bytes@)).0,
                Err(e) => scan_u64(Ok(bytes@)).1 is Err && e is Descriptor,
            },
    {
        envelope_seq(bytes)
    }

    /// Decode an envelope payload: sequence number and operation.
    pub fn decode_envelope(bytes: &[u8]) -> (r: Result<(u64, MutationOp), StoreError>)
        ensures
            match r {
                Ok(o) => parse_envelope(bytes@) == Ok::<(u64, OpView), CodecError>((o.0, o.1@)),
                Err(e) => parse_envelope(bytes@) is Err && e is Descriptor,
            },
    {
        decode_envelope(bytes)
    }
}

} // verus!
