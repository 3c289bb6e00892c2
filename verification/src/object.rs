//! Object identity and the derived object index.
//!
//! The object index maps a content id to a segment location. It is derived and
//! disposable: it is rebuilt from segment records at mount.

use vstd::prelude::*;

use crate::bytes::copy_bytes;
use crate::chunk::ChunkId;
use crate::map::SortedMap;
use crate::record::HEADER_SIZE;
use crate::sorted::{erase, has_key, lookup, sorted, upsert};
use crate::version::RecordTag;

verus! {

/// Physical location of a record inside a segment.
#[derive(Debug, Clone, Copy, PartialEq, Eq, Structural)]
pub struct Location {
    /// Segment sequence number.
    pub segment_seq: u64,
    /// Record start offset within the segment file.
    pub offset: u64,
    /// Stored payload length.
    pub stored_len: u64,
    /// Materialized length when recorded.
    pub materialized_len: Option<u64>,
    /// Record tag.
    pub tag: RecordTag,
}

impl Location {
    /// Total on-disk size (header + payload).
    pub fn total_size(&self) -> (r: u64)
        requires
            self.stored_len + HEADER_SIZE <= u64::MAX,
        ensures
            r == HEADER_SIZE + self.stored_len,
    {
        HEADER_SIZE + self.stored_len
    }
}

/// The derived object index.
pub struct ObjectIndex {
    map: SortedMap<Location>,
}

impl View for ObjectIndex {
    type V = Seq<(Seq<u8>, Location)>;

    closed spec fn view(&self) -> Seq<(Seq<u8>, Location)> {
        self.map@
    }
}

impl ObjectIndex {
    /// Ids strictly increase: one location to an id.
    pub open spec fn wf(&self) -> bool {
        sorted(self@)
    }

    /// Empty index.
    pub fn new() -> (r: ObjectIndex)
        ensures
            r@ == Seq::<(Seq<u8>, Location)>::empty(),
            r.wf(),
    {
        ObjectIndex { map: SortedMap::new() }
    }

    /// Insert a location.
    pub fn insert(&mut self, id: ChunkId, loc: Location)
        ensures
            old(self).wf() ==> final(self)@ == upsert(old(self)@, id@, loc) && final(self).wf(),
    {
        self.map.insert(copy_bytes(id.as_slice()), loc);
    }

    /// Look up a location.
    pub fn get(&self, id: &ChunkId) -> (r: Option<&Location>)
        ensures
            self.wf() ==> match r {
                Some(l) => lookup(self@, id@) == Some(*l),
                None => lookup(self@, id@) is None,
            },
    {
        self.map.get(id.as_slice())
    }

    /// Whether an id is present.
    pub fn contains(&self, id: &ChunkId) -> (r: bool)
        ensures
            self.wf() ==> r == has_key(self@, id@),
    {
        self.map.contains(id.as_slice())
    }

    /// Number of entries.
    pub fn len(&self) -> (r: usize)
        ensures
            r == self@.len(),
    {
        self.map.len()
    }

    /// Whether empty.
    pub fn is_empty(&self) -> (r: bool)
        ensures
            r == (self@.len() == 0),
    {
        self.map.is_empty()
    }

    /// The `i`-th (id, location) pair in id order.
    pub fn entry(&self, i: usize) -> (r: (&Vec<u8>, &Location))
        requires
            i < self@.len(),
        ensures
            (r.0@, *r.1) == self@[i as int],
    {
        (self.map.key_at(i), self.map.value_at(i))
    }

    /// All (id bytes, location) pairs in id order.
    pub fn iter(&self) -> (r: Vec<(Vec<u8>, Location)>)
        ensures
            r@.len() == self@.len(),
            forall|i: int| 0 <= i < r@.len() ==> (#[trigger] r@[i]).0@ == self@[i].0 && r@[i].1
                == self@[i].1,
    {
        let mut out: Vec<(Vec<u8>, Location)> = Vec::with_capacity(self.len());
        let mut i: usize = 0;
        while i < self.len()
            invariant
                i <= self@.len(),
                out@.len() == i,
                forall|j: int|
                    0 <= j < i ==> (#[trigger] out@[j]).0@ == self@[j].0 && out@[j].1 == self@[j].1,
            decreases self@.len() - i,
        {
            let (k, l) = self.entry(i);
            out.push((copy_bytes(k), *l));
            i += 1;
        }
        out
    }

    /// Remove an entry (compaction).
    pub fn remove(&mut self, id: &ChunkId) -> (r: Option<Location>)
        ensures
            old(self).wf() ==> final(self)@ == erase(old(self)@, id@) && r == lookup(
                old(self)@,
                id@,
            ) && final(self).wf(),
    {
        self.map.remove(id.as_slice())
    }

    /// Clear all entries.
    pub fn clear(&mut self)
        ensures
            final(self)@ == Seq::<(Seq<u8>, Location)>::empty(),
            final(self).wf(),
    {
        self.map.clear();
    }
}

/// Aggregated store accounting.
#[derive(Debug, Clone, Copy, PartialEq, Eq, Structural)]
pub struct StoreStats {
    /// Physical capacity of the backing store.
    pub physical_capacity: u64,
    /// Total bytes in segment files.
    pub physical_used: u64,
    /// Logical bytes stored (sum of the materialized lengths of reachable data).
    pub logical_bytes: u64,
    /// Reachable persisted bytes (sum of the record sizes of reachable objects).
    pub reachable_bytes: u64,
    /// Records not reachable from any root (reclaimable).
    pub unreachable_bytes: u64,
    /// Snapshot-pinned bytes.
    pub snapshot_pinned_bytes: u64,
    /// Collection reserve.
    pub gc_reserve_bytes: u64,
    /// Number of live objects.
    pub object_count: u64,
    /// Number of reachable data records.
    pub data_record_count: u64,
}

impl StoreStats {
    /// Reclaimable capacity.
    pub fn reclaimable(&self) -> (r: u64)
        ensures
            r == self.unreachable_bytes,
    {
        self.unreachable_bytes
    }
}

} // verus!
