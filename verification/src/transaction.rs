//! Transactions: staged immutable records over the committed objects, and the
//! crash-injection points of the commit protocol.

use vstd::prelude::*;

use crate::bytes::copy_bytes;
use crate::chunk::{digest, ChunkId};
use crate::error::StoreError;
use crate::index::{grown, opt_bytes, BTreeError, ObjectProvider};
use crate::inode::{inode_bytes, DataView, Inode};
use crate::io::{file_of, payload_in, IoBackend};
use crate::map::SortedMap;
use crate::object::{Location, ObjectIndex};
use crate::root::Root;
use crate::sorted::{has_key, lemma_lookup_upsert, lemma_rank, lemma_upsert_sorted, lookup, rank, sorted,
    upsert};
use crate::tried::Tried;
use crate::version::RecordTag;

verus! {

/// Crash-injection points of the commit protocol.
#[derive(Debug, Clone, Copy, PartialEq, Eq, Hash, Structural)]
pub enum CrashPoint {
    /// Records appended to the segment buffer, not flushed.
    AfterRecordAppend,
    /// Flushed and fdatasync'd.
    AfterSegmentFdatasync,
    /// New segment directory entry fsynced.
    AfterSegmentDirFsync,
    /// New root constructed (it is appended with the other records).
    AfterRootWrite,
    /// Inactive superblock slot written, not fsynced.
    AfterSuperblockWrite,
    /// Superblock fsynced (commit durable, before acknowledgment).
    AfterSuperblockFsync,
    /// Collection: before old segment deletion.
    BeforeOldSegmentDelete,
}

/// Commit hooks for crash tests. An armed hook makes the commit stop at that
/// point, after the durability work before it.
#[derive(Debug, Clone, Copy, PartialEq, Eq)]
pub struct CrashHooks {
    /// Arm one injection point.
    pub armed: Option<CrashPoint>,
}

impl CrashPoint {
    pub open spec fn text(self) -> Seq<char> {
        match self {
            CrashPoint::AfterRecordAppend => "AfterRecordAppend"@,
            CrashPoint::AfterSegmentFdatasync => "AfterSegmentFdatasync"@,
            CrashPoint::AfterSegmentDirFsync => "AfterSegmentDirFsync"@,
            CrashPoint::AfterRootWrite => "AfterRootWrite"@,
            CrashPoint::AfterSuperblockWrite => "AfterSuperblockWrite"@,
            CrashPoint::AfterSuperblockFsync => "AfterSuperblockFsync"@,
            CrashPoint::BeforeOldSegmentDelete => "BeforeOldSegmentDelete"@,
        }
    }

    /// The point's name.
    pub fn name(self) -> (r: String)
        ensures
            r@ == self.text(),
    {
        match self {
            CrashPoint::AfterRecordAppend => "AfterRecordAppend".to_string(),
            CrashPoint::AfterSegmentFdatasync => "AfterSegmentFdatasync".to_string(),
            CrashPoint::AfterSegmentDirFsync => "AfterSegmentDirFsync".to_string(),
            CrashPoint::AfterRootWrite => "AfterRootWrite".to_string(),
            CrashPoint::AfterSuperblockWrite => "AfterSuperblockWrite".to_string(),
            CrashPoint::AfterSuperblockFsync => "AfterSuperblockFsync".to_string(),
            CrashPoint::BeforeOldSegmentDelete => "BeforeOldSegmentDelete".to_string(),
        }
    }
}

impl Default for CrashHooks {
    fn default() -> (r: CrashHooks)
        ensures
            r.armed is None,
    {
        CrashHooks { armed: None }
    }
}

impl CrashHooks {
    /// No hooks (normal operation).
    pub fn none() -> (r: CrashHooks)
        ensures
            r.armed is None,
    {
        CrashHooks { armed: None }
    }

    /// Arm a crash point.
    pub fn crash_at(point: CrashPoint) -> (r: CrashHooks)
        ensures
            r.armed == Some(point),
    {
        CrashHooks { armed: Some(point) }
    }

    /// Test an armed crash point: fails at the armed boundary, and only there.
    pub fn hit(&self, point: CrashPoint) -> (r: Result<(), StoreError>)
        ensures
            match r {
                Ok(_) => self.armed != Some(point),
                Err(e) => self.armed == Some(point) && (e matches StoreError::CrashSimulated(m)
                    && m@ == point.text()),
            },
    {
        match self.armed {
            Some(p) => if p == point {
                Err(StoreError::CrashSimulated(point.name()))
            } else {
                Ok(())
            },
            None => Ok(()),
        }
    }
}

/// A pending immutable record: raw payload staged for append. The envelope is
/// encoded at append time.
pub struct PendingRecord {
    /// Record tag.
    pub tag: RecordTag,
    /// Raw payload bytes.
    pub payload: Vec<u8>,
    /// Materialized length.
    pub materialized_len: Option<u64>,
}

// ---------------------------------------------------------------------------
// Committed objects
// ---------------------------------------------------------------------------

/// The payload at a location.
pub open spec fn object_at(segments: Map<u64, Seq<u8>>, loc: Location) -> Option<Seq<u8>> {
    payload_in(
        file_of(segments, loc.segment_seq),
        loc.offset as nat,
        loc.stored_len as nat,
    )
}

/// The payloads of the indexed objects.
pub open spec fn committed(
    segments: Map<u64, Seq<u8>>,
    index: Seq<(Seq<u8>, Location)>,
) -> Set<Seq<u8>> {
    Set::new(
        |b: Seq<u8>|
            exists|i: int|
                0 <= i < index.len() && object_at(segments, (#[trigger] index[i]).1) == Some(b),
    )
}

/// Every indexed id has its object at the indexed location.
pub open spec fn index_sound(
    segments: Map<u64, Seq<u8>>,
    index: Seq<(Seq<u8>, Location)>,
) -> bool {
    &&& sorted(index)
    &&& forall|i: int|
        0 <= i < index.len() ==> (object_at(segments, (#[trigger] index[i]).1) matches Some(b)
            && digest(b) == index[i].0)
}

/// Pending objects over the committed ones. Fetches resolve from the pending
/// objects first.
pub struct Pending<'a, B: IoBackend> {
    /// The storage that holds the committed objects.
    pub io: &'a B,
    /// Where the committed objects are.
    pub index: &'a ObjectIndex,
    /// Pending object payloads by content id.
    pub pending: SortedMap<Vec<u8>>,
    /// Pending records to append, in append order.
    pub records: Vec<PendingRecord>,
    /// Every payload that was put.
    pub given: Tried<B>,
    /// The payloads that were put, in order.
    pub put_log: Ghost<Seq<Seq<u8>>>,
}

/// A pending transaction: new immutable records and the root being built, over
/// the committed objects.
pub struct Tx<'a, B: IoBackend> {
    /// The committed and pending objects.
    pub objects: Pending<'a, B>,
    /// Root being built.
    pub root: Root,
    /// The fanout limit of the tree nodes.
    pub max_fanout: u32,
}

/// What a finished transaction hands to the commit.
pub struct Staged<B: IoBackend> {
    pub records: Vec<PendingRecord>,
    pub root: Root,
    /// Every payload of the transaction and underneath it.
    pub payloads: Tried<B>,
}

/// The views of the staged records.
pub open spec fn staged_views(rs: Seq<PendingRecord>) -> Seq<(RecordTag, Seq<u8>, Option<u64>)> {
    Seq::new(rs.len(), |i: int| (rs[i].tag, rs[i].payload@, rs[i].materialized_len))
}

impl<'a, B: IoBackend> Pending<'a, B> {
    /// The committed payloads underneath.
    pub open spec fn base(&self) -> Set<Seq<u8>> {
        committed(self.io.segments(), self.index@)
    }

    /// The records to append, in append order.
    pub open spec fn staged(&self) -> Seq<(RecordTag, Seq<u8>, Option<u64>)> {
        staged_views(self.records@)
    }

    /// The pending payloads and records are those that were put and not
    /// committed before.
    pub open spec fn consistent(&self) -> bool {
        &&& index_sound(self.io.segments(), self.index@)
        &&& sorted(self.pending@)
        &&& forall|i: int|
            0 <= i < self.pending@.len() ==> digest((#[trigger] self.pending@[i]).1@)
                == self.pending@[i].0 && self.given@.contains(self.pending@[i].1@)
        &&& forall|b: Seq<u8>| #[trigger]
            self.given@.contains(b) ==> has_key(self.pending@, digest(b)) || has_key(
                self.index@,
                digest(b),
            )
        // A payload is recorded for every pending id, and no other; none is of the log.
        &&& forall|i: int|
            0 <= i < self.records@.len() ==> has_key(
                self.pending@,
                digest((#[trigger] self.records@[i]).payload@),
            ) && self.given@.contains(self.records@[i].payload@)
        &&& forall|i: int|
            0 <= i < self.records@.len() ==> (#[trigger] self.records@[i]).tag
                != RecordTag::MutationLog
        &&& forall|i: int|
            0 <= i < self.pending@.len() ==> exists|j: int|
                0 <= j < self.records@.len() && (#[trigger] self.records@[j]).payload@ == (
                #[trigger] self.pending@[i]).1@
    }

    /// Nothing pending over an index of committed objects.
    pub fn over(io: &'a B, index: &'a ObjectIndex) -> (r: Pending<'a, B>)
        ensures
            r.staged() == Seq::<(RecordTag, Seq<u8>, Option<u64>)>::empty(),
            r.payloads() == committed(io.segments(), index@),
            r.ground() == committed(io.segments(), index@),
            r.faithful() == index_sound(io.segments(), index@),
            r.may_fail() == !io.reliable(),
            *r.index == *index,
    {
        let r = Pending {
            io,
            index,
            pending: SortedMap::new(),
            records: Vec::new(),
            given: Tried::none(),
            put_log: Ghost(Seq::empty()),
        };
        proof {
            assert(r.staged() =~= Seq::empty());
            assert(r.payloads() =~= committed(io.segments(), index@));
        }
        r
    }

    /// Stage an immutable object: a physical record is appended only when the
    /// content id is not already pending in this transaction and not already
    /// committed. Object identity is the payload digest alone; the tag and the
    /// materialized length are envelope metadata.
    fn stage(
        &mut self,
        id: ChunkId,
        bytes: Vec<u8>,
        tag: RecordTag,
        materialized_len: Option<u64>,
    )
        requires
            id@ == digest(bytes@),
        ensures
            final(self).payloads() == old(self).payloads().insert(bytes@),
            final(self).puts() == old(self).puts().push(bytes@),
            old(self).faithful() && tag != RecordTag::MutationLog ==> final(self).faithful(),
            final(self).may_fail() == old(self).may_fail(),
            final(self).ground() == old(self).ground(),
            old(self).faithful() ==> final(self).staged() == if has_key(
                old(self).pending@,
                id@,
            ) || has_key(old(self).index@, id@) {
                old(self).staged()
            } else {
                old(self).staged().push((tag, bytes@, materialized_len))
            },
    {
        let ghost was = *self;
        let ghost b = bytes@;
        let known = self.pending.contains(id.as_slice()) || self.index.contains(&id);
        self.put_log = Ghost(self.put_log@.push(b));
        if known {
            self.given.note(&bytes);
            proof {
                assert(self.payloads() =~= was.payloads().insert(b));
                if was.consistent() {
                    lemma_known_consistent(was, *self, b);
                }
            }
            return;
        }
        self.given.note(&bytes);
        let copy = copy_bytes(&bytes);
        let ghost kept = copy;
        let rec = PendingRecord { tag, payload: bytes, materialized_len };
        let ghost added = rec;
        self.pending.insert(copy_bytes(id.as_slice()), copy);
        self.records.push(rec);
        proof {
            assert(self.payloads() =~= was.payloads().insert(b));
            if was.consistent() && tag != RecordTag::MutationLog {
                lemma_new_consistent(was, *self, b, kept, added);
            }
            assert(staged_views(self.records@) =~= staged_views(was.records@).push(
                (tag, b, materialized_len),
            ));
        }
    }

    /// Fetch an object from the pending records or the committed objects.
    pub fn fetch(&self, id: &ChunkId) -> (r: Result<Option<Vec<u8>>, StoreError>)
        ensures
            self.faithful() && has_key(self.pending@, id@) ==> (r matches Ok(v) && opt_bytes(v)
                == opt_bytes(lookup(self.pending@, id@))),
            self.faithful() && !has_key(self.pending@, id@) && !has_key(self.index@, id@)
                ==> r == Ok::<Option<Vec<u8>>, StoreError>(None),
            self.faithful() ==> match r {
                Ok(Some(b)) => self.payloads().contains(b@) && digest(b@) == id@,
                Ok(None) => forall|b: Seq<u8>| #[trigger]
                    self.payloads().contains(b) ==> digest(b) != id@,
                Err(_) => self.may_fail(),
            },
    {
        match self.pending.get(id.as_slice()) {
            Some(b) => {
                proof {
                    if self.faithful() {
                        let i = rank(self.pending@, id@);
                        assert(self.pending@[i].1 == *b);
                    }
                }
                return Ok(Some(copy_bytes(b)));
            },
            None => {},
        }
        match self.index.get(id) {
            None => {
                proof {
                    if self.faithful() {
                        assert forall|b: Seq<u8>| #[trigger] self.payloads().contains(
                            b,
                        ) implies digest(b) != id@ by {
                            lemma_no_such_object(*self, b, id@);
                        }
                    }
                }
                Ok(None)
            },
            Some(loc) => {
                proof {
                    if self.faithful() {
                        lemma_rank(self.index@, id@);
                        let i = rank(self.index@, id@);
                        assert(self.index@[i].1 == *loc);
                    }
                }
                match self.io.read_payload(loc.segment_seq, loc.offset, loc.stored_len) {
                    Ok(b) => {
                        proof {
                            if self.faithful() {
                                let i = rank(self.index@, id@);
                                assert(object_at(self.io.segments(), self.index@[i].1) == Some(
                                    b@,
                                ));
                            }
                        }
                        Ok(Some(b))
                    },
                    Err(e) => Err(e),
                }
            },
        }
    }
}

impl<'a, B: IoBackend> Tx<'a, B> {
    /// Begin a transaction from a root, over an index of committed objects.
    pub fn begin(io: &'a B, index: &'a ObjectIndex, root: Root, max_fanout: u32) -> (tx: Tx<'a, B>)
        ensures
            tx.root == root,
            tx.max_fanout == max_fanout,
            tx.objects.staged() == Seq::<(RecordTag, Seq<u8>, Option<u64>)>::empty(),
            tx.objects.payloads() == committed(io.segments(), index@),
            tx.objects.ground() == committed(io.segments(), index@),
            tx.objects.faithful() == index_sound(io.segments(), index@),
            tx.objects.may_fail() == !io.reliable(),
            *tx.objects.index == *index,
    {
        Tx { objects: Pending::over(io, index), root, max_fanout }
    }

    /// The working root.
    pub fn root(&self) -> (r: &Root)
        ensures
            *r == self.root,
    {
        &self.root
    }

    /// Fetch an object from the pending records or the committed objects.
    pub fn fetch_pending_or_store(&self, id: &ChunkId) -> (r: Result<Option<Vec<u8>>, StoreError>)
        ensures
            self.objects.faithful() ==> match r {
                Ok(Some(b)) => self.objects.payloads().contains(b@) && digest(b@) == id@,
                Ok(None) => forall|b: Seq<u8>| #[trigger]
                    self.objects.payloads().contains(b) ==> digest(b) != id@,
                Err(_) => self.objects.may_fail(),
            },
    {
        self.objects.fetch(id)
    }

    /// Give up the transaction, keeping what it staged: a record for every
    /// payload that was not committed before.
    pub fn finish(self) -> (r: Staged<B>)
        ensures
            staged_views(r.records@) == self.objects.staged(),
            r.root == self.root,
            r.payloads@ == self.objects.payloads(),
            self.objects.faithful() ==> covers_staged(
                self.objects.ground(),
                r.records@,
                self.objects.payloads(),
            ),
    {
        proof {
            if self.objects.faithful() {
                lemma_covered(self.objects);
            }
        }
        let mut payloads = Tried::indexed(self.objects.io, self.objects.index);
        payloads.absorb(&self.objects.given);
        Staged { records: self.objects.records, root: self.root, payloads }
    }

    /// Give up the transaction and what it staged; gives the payloads that it held.
    pub fn abandon(self) -> (r: Tried<B>)
        ensures
            r@ == self.objects.payloads(),
    {
        let mut payloads = Tried::indexed(self.objects.io, self.objects.index);
        payloads.absorb(&self.objects.given);
        payloads
    }
}

/// Every payload has its digest among those of the ground and of the records,
/// and every record is one of the payloads, and none of the log.
pub open spec fn covers_staged(
    ground: Set<Seq<u8>>,
    records: Seq<PendingRecord>,
    payloads: Set<Seq<u8>>,
) -> bool {
    &&& forall|b: Seq<u8>| #[trigger]
        payloads.contains(b) ==> digest_in(ground, digest(b)) || recorded(records, digest(b))
    &&& forall|i: int| 0 <= i < records.len() ==> payloads.contains((#[trigger] records[i]).payload@)
    &&& forall|i: int|
        0 <= i < records.len() ==> (#[trigger] records[i]).tag != RecordTag::MutationLog
    &&& ground.subset_of(payloads)
}

/// Some payload has this digest.
pub open spec fn digest_in(payloads: Set<Seq<u8>>, id: Seq<u8>) -> bool {
    exists|b: Seq<u8>| #[trigger] payloads.contains(b) && digest(b) == id
}

/// Some record's payload has this digest.
pub open spec fn recorded(records: Seq<PendingRecord>, id: Seq<u8>) -> bool {
    exists|i: int| 0 <= i < records.len() && digest((#[trigger] records[i]).payload@) == id
}

pub proof fn lemma_covered<B: IoBackend>(p: Pending<B>)
    requires
        p.consistent(),
    ensures
        covers_staged(p.ground(), p.records@, p.payloads()),
{
    assert forall|b: Seq<u8>| #[trigger] p.payloads().contains(b) implies digest_in(
        p.ground(),
        digest(b),
    ) || recorded(p.records@, digest(b)) by {
        if p.given@.contains(b) {
            if has_key(p.index@, digest(b)) {
                lemma_rank(p.index@, digest(b));
                let i = rank(p.index@, digest(b));
                let c = object_at(p.io.segments(), p.index@[i].1)->0;
                assert(p.ground().contains(c));
            } else {
                lemma_rank(p.pending@, digest(b));
                let i = rank(p.pending@, digest(b));
                let j = choose|j: int|
                    0 <= j < p.records@.len() && (#[trigger] p.records@[j]).payload@
                        == p.pending@[i].1@;
                assert(digest(p.records@[j].payload@) == digest(b));
            }
        } else {
            assert(p.ground().contains(b));
        }
    }
}

proof fn lemma_no_such_object<B: IoBackend>(tx: Pending<B>, b: Seq<u8>, id: Seq<u8>)
    requires
        tx.faithful(),
        tx.payloads().contains(b),
        !has_key(tx.pending@, id),
        !has_key(tx.index@, id),
    ensures
        digest(b) != id,
{
    if !tx.given@.contains(b) {
        let i = choose|i: int|
            0 <= i < tx.index@.len() && object_at(
                tx.io.segments(),
                (#[trigger] tx.index@[i]).1,
            ) == Some(b);
        lemma_rank(tx.index@, id);
        assert(digest(b) == tx.index@[i].0);
    }
}

proof fn lemma_known_consistent<B: IoBackend>(was: Pending<B>, now: Pending<B>, b: Seq<u8>)
    requires
        was.consistent(),
        now.io == was.io,
        now.index == was.index,
        now.pending == was.pending,
        now.records == was.records,
        now.given@ == was.given@.insert(b),
        has_key(was.pending@, digest(b)) || has_key(was.index@, digest(b)),
    ensures
        now.consistent(),
{
    assert forall|x: Seq<u8>| #[trigger] now.given@.contains(x) implies has_key(
        now.pending@,
        digest(x),
    ) || has_key(now.index@, digest(x)) by {
        if x != b {
            assert(was.given@.contains(x));
        }
    }
}

proof fn lemma_new_consistent<B: IoBackend>(
    was: Pending<B>,
    now: Pending<B>,
    b: Seq<u8>,
    copy: Vec<u8>,
    rec: PendingRecord,
)
    requires
        was.consistent(),
        now.io == was.io,
        now.index == was.index,
        copy@ == b,
        rec.payload@ == b,
        now.pending@ == upsert(was.pending@, digest(b), copy),
        now.records@ == was.records@.push(rec),
        now.given@ == was.given@.insert(b),
        !has_key(was.pending@, digest(b)),
        rec.tag != RecordTag::MutationLog,
    ensures
        now.consistent(),
{
    let k = digest(b);
    let r = rank(was.pending@, k);
    lemma_rank(was.pending@, k);
    lemma_upsert_sorted(was.pending@, k, copy);
    let np = now.pending@;
    assert forall|i: int| 0 <= i < np.len() implies digest((#[trigger] np[i]).1@) == np[i].0
        && now.given@.contains(np[i].1@) by {
        if i != r {
            let j = if i < r { i } else { i - 1 };
            assert(np[i] == was.pending@[j]);
        }
    }
    assert forall|x: Seq<u8>| #[trigger] now.given@.contains(x) implies has_key(np, digest(x))
        || has_key(now.index@, digest(x)) by {
        lemma_lookup_upsert(was.pending@, k, copy, digest(x));
        if x != b {
            assert(was.given@.contains(x));
            assert(has_key(was.pending@, digest(x)) || has_key(was.index@, digest(x)));
        }
    }
    assert forall|i: int| 0 <= i < now.records@.len() implies has_key(
        np,
        digest((#[trigger] now.records@[i]).payload@),
    ) && now.given@.contains(now.records@[i].payload@) by {
        lemma_lookup_upsert(was.pending@, k, copy, digest(now.records@[i].payload@));
        if i < was.records@.len() {
            assert(now.records@[i] == was.records@[i]);
        }
    }
    assert forall|i: int| 0 <= i < np.len() implies exists|j: int|
        0 <= j < now.records@.len() && (#[trigger] now.records@[j]).payload@ == (
        #[trigger] np[i]).1@ by {
        if i == r {
            assert(now.records@[was.records@.len() as int].payload@ == np[i].1@);
        } else {
            let m = if i < r { i } else { i - 1 };
            assert(np[i] == was.pending@[m]);
            let j = choose|j: int|
                0 <= j < was.records@.len() && (#[trigger] was.records@[j]).payload@
                    == was.pending@[m].1@;
            assert(now.records@[j] == was.records@[j]);
        }
    }
}

impl<'a, B: IoBackend> ObjectProvider for Pending<'a, B> {
    open spec fn payloads(&self) -> Set<Seq<u8>> {
        committed(self.io.segments(), self.index@).union(self.given@)
    }

    open spec fn faithful(&self) -> bool {
        self.consistent()
    }

    open spec fn may_fail(&self) -> bool {
        !self.io.reliable()
    }

    open spec fn ground(&self) -> Set<Seq<u8>> {
        self.base()
    }

    open spec fn puts(&self) -> Seq<Seq<u8>> {
        self.put_log@
    }

    fn get(&self, id: &ChunkId) -> (r: Result<Option<Vec<u8>>, BTreeError>) {
        match self.fetch(id) {
            Ok(v) => Ok(v),
            Err(e) => Err(BTreeError::Provider(e.message())),
        }
    }

    fn put(&mut self, id: ChunkId, bytes: Vec<u8>) {
        self.stage(id, bytes, RecordTag::BtreeNode, None);
    }
}

/// Register a data object (payload) in the transaction; returns its id.
pub fn put_object<B: IoBackend>(
    tx: &mut Tx<'_, B>,
    tag: RecordTag,
    payload: Vec<u8>,
    materialized_len: Option<u64>,
) -> (r: ChunkId)
    ensures
        r@ == digest(payload@),
        tag != RecordTag::MutationLog ==> grown(&old(tx).objects, &final(tx).objects),
        final(tx).objects.payloads() == old(tx).objects.payloads().insert(payload@),
        final(tx).root == old(tx).root,
        final(tx).max_fanout == old(tx).max_fanout,
        old(tx).objects.faithful() ==> final(tx).objects.staged() == if has_key(
            old(tx).objects.pending@,
            r@,
        ) || has_key(old(tx).objects.index@, r@) {
            old(tx).objects.staged()
        } else {
            old(tx).objects.staged().push((tag, payload@, materialized_len))
        },
{
    let id = ChunkId::of(&payload);
    tx.objects.stage(id, payload, tag, materialized_len);
    id
}

/// Register an inode object.
pub fn put_inode<B: IoBackend>(tx: &mut Tx<'_, B>, inode: &Inode) -> (r: ChunkId)
    requires
        inode.data@ matches DataView::Symlink { target } ==> target.len() <= u32::MAX,
    ensures
        r@ == digest(inode_bytes(inode@)),
        grown(&old(tx).objects, &final(tx).objects),
        final(tx).objects.payloads() == old(tx).objects.payloads().insert(inode_bytes(inode@)),
        final(tx).root == old(tx).root,
        final(tx).max_fanout == old(tx).max_fanout,
{
    put_object(tx, RecordTag::Inode, inode.encode(), None)
}

} // verus!
