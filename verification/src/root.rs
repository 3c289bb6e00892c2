//! Filesystem root object and superblock selection.

use vstd::prelude::*;

use crate::chunk::{digest, zero_id, ChunkId};
use crate::codec::{lemma_scan_take, lemma_scan_u16, lemma_scan_u64, lemma_unscan_u16, lemma_unscan_u64,
    scan_check, scan_end,
    scan_take, scan_u16, scan_u64, u16_bytes, u64_bytes, CodecError, Cursor, Scan, Writer};
use crate::error::StoreError;
use crate::superblock::{parse_slot, slot_for_generation, slot_of_generation, uuid_from, Superblock,
    SuperblockView};
use crate::version::{FORMAT_MAJOR, FORMAT_MINOR, SUPERBLOCK_SLOT_SIZE};

verus! {

/// The immutable filesystem root payload.
#[derive(Debug, Clone, Copy, PartialEq, Eq)]
pub struct Root {
    /// Format major.
    pub format_major: u16,
    /// Format minor.
    pub format_minor: u16,
    /// Root of the inode index (inode number to inode object).
    pub inode_index_root: ChunkId,
    /// Inode number of the filesystem root directory.
    pub root_dir_ino: u64,
    /// Root of the snapshot tree (name to snapshot entry).
    pub snapshot_tree_root: ChunkId,
    /// Root of the model index (reserved; models live in the object index).
    pub model_index_root: ChunkId,
    /// Current segment sequence.
    pub segment_seq: u64,
    /// Derived-index epoch (bumped by compaction).
    pub index_epoch: u64,
    /// Filesystem UUID.
    pub uuid: [u8; 16],
    /// Commit generation (mirrors the superblock).
    pub generation: u64,
    /// Root of the chunk index (content id to descriptor bytes).
    pub chunk_index_root: ChunkId,
    /// Highest mutation-log sequence that the trees hold; the log above it is
    /// replayed at recovery.
    pub log_seq: u64,
}

/// Mathematical [`Root`].
#[verifier::ext_equal]
pub struct RootView {
    pub format_major: u16,
    pub format_minor: u16,
    pub inode_index_root: Seq<u8>,
    pub root_dir_ino: u64,
    pub snapshot_tree_root: Seq<u8>,
    pub model_index_root: Seq<u8>,
    pub segment_seq: u64,
    pub index_epoch: u64,
    pub uuid: Seq<u8>,
    pub generation: u64,
    pub chunk_index_root: Seq<u8>,
    pub log_seq: u64,
}

impl View for Root {
    type V = RootView;

    open spec fn view(&self) -> RootView {
        RootView {
            format_major: self.format_major,
            format_minor: self.format_minor,
            inode_index_root: self.inode_index_root@,
            root_dir_ino: self.root_dir_ino,
            snapshot_tree_root: self.snapshot_tree_root@,
            model_index_root: self.model_index_root@,
            segment_seq: self.segment_seq,
            index_epoch: self.index_epoch,
            uuid: self.uuid@,
            generation: self.generation,
            chunk_index_root: self.chunk_index_root@,
            log_seq: self.log_seq,
        }
    }
}

/// A root with no trees.
pub open spec fn empty_root() -> RootView {
    RootView {
        format_major: FORMAT_MAJOR,
        format_minor: FORMAT_MINOR,
        inode_index_root: zero_id(),
        root_dir_ino: 0,
        snapshot_tree_root: zero_id(),
        model_index_root: zero_id(),
        segment_seq: 0,
        index_epoch: 0,
        uuid: Seq::new(16, |i: int| 0u8),
        generation: 0,
        chunk_index_root: zero_id(),
        log_seq: 0,
    }
}

impl Default for Root {
    fn default() -> (r: Root)
        ensures
            r@ == empty_root(),
    {
        let r = Root {
            format_major: FORMAT_MAJOR,
            format_minor: FORMAT_MINOR,
            inode_index_root: ChunkId::zero(),
            root_dir_ino: 0,
            snapshot_tree_root: ChunkId::zero(),
            model_index_root: ChunkId::zero(),
            segment_seq: 0,
            index_epoch: 0,
            uuid: [0u8; 16],
            generation: 0,
            chunk_index_root: ChunkId::zero(),
            log_seq: 0,
        };
        assert(r@.uuid =~= empty_root().uuid);
        r
    }
}

/// Versions, inode index and root directory.
pub open spec fn root_head(v: RootView) -> Seq<u8> {
    u16_bytes(v.format_major) + u16_bytes(v.format_minor) + v.inode_index_root + u64_bytes(
        v.root_dir_ino,
    )
}

/// Snapshot tree, model index, segment sequence and index epoch.
pub open spec fn root_middle(v: RootView) -> Seq<u8> {
    v.snapshot_tree_root + v.model_index_root + u64_bytes(v.segment_seq) + u64_bytes(v.index_epoch)
}

/// UUID, generation, chunk index and log sequence.
pub open spec fn root_tail(v: RootView) -> Seq<u8> {
    v.uuid + u64_bytes(v.generation) + v.chunk_index_root + u64_bytes(v.log_seq)
}

/// The root payload.
pub open spec fn root_bytes(v: RootView) -> Seq<u8> {
    root_head(v) + root_middle(v) + root_tail(v)
}

pub open spec fn scan_root_head(st: Scan) -> ((u16, u16, Seq<u8>, u64), Scan) {
    let (format_major, st) = scan_u16(st);
    let (format_minor, st) = scan_u16(st);
    let (inode_index_root, st) = scan_take(st, 32);
    let (root_dir_ino, st) = scan_u64(st);
    ((format_major, format_minor, inode_index_root, root_dir_ino), st)
}

pub open spec fn scan_root_middle(st: Scan) -> ((Seq<u8>, Seq<u8>, u64, u64), Scan) {
    let (snapshot_tree_root, st) = scan_take(st, 32);
    let (model_index_root, st) = scan_take(st, 32);
    let (segment_seq, st) = scan_u64(st);
    let (index_epoch, st) = scan_u64(st);
    ((snapshot_tree_root, model_index_root, segment_seq, index_epoch), st)
}

pub open spec fn scan_root_tail(st: Scan) -> ((Seq<u8>, u64, Seq<u8>, u64), Scan) {
    let (uuid, st) = scan_take(st, 16);
    let (generation, st) = scan_u64(st);
    let (chunk_index_root, st) = scan_take(st, 32);
    let (log_seq, st) = scan_u64(st);
    ((uuid, generation, chunk_index_root, log_seq), st)
}

/// The root behind a payload: all of it, under the current major version.
pub open spec fn parse_root(bytes: Seq<u8>) -> Result<RootView, CodecError> {
    let ((format_major, format_minor, inode_index_root, root_dir_ino), st) = scan_root_head(
        Ok(bytes),
    );
    let ((snapshot_tree_root, model_index_root, segment_seq, index_epoch), st) = scan_root_middle(
        st,
    );
    let ((uuid, generation, chunk_index_root, log_seq), st) = scan_root_tail(st);
    let st = scan_end(st);
    let st = scan_check(st, format_major == FORMAT_MAJOR, CodecError::Malformed);
    match st {
        Err(e) => Err(e),
        Ok(_) => Ok(
            RootView {
                format_major,
                format_minor,
                inode_index_root,
                root_dir_ino,
                snapshot_tree_root,
                model_index_root,
                segment_seq,
                index_epoch,
                uuid,
                generation,
                chunk_index_root,
                log_seq,
            },
        ),
    }
}

/// A root that its payload gives back.
pub open spec fn root_ok(v: RootView) -> bool {
    &&& v.format_major == FORMAT_MAJOR
    &&& v.inode_index_root.len() == 32
    &&& v.snapshot_tree_root.len() == 32
    &&& v.model_index_root.len() == 32
    &&& v.uuid.len() == 16
    &&& v.chunk_index_root.len() == 32
}

proof fn lemma_root_head(v: RootView, rest: Seq<u8>)
    requires
        root_ok(v),
    ensures
        root_head(v).len() == 44,
        scan_root_head(Ok(root_head(v) + rest)) == (
            (v.format_major, v.format_minor, v.inode_index_root, v.root_dir_ino),
            Ok::<Seq<u8>, CodecError>(rest),
        ),
{
    let s4 = u64_bytes(v.root_dir_ino) + rest;
    let s3 = v.inode_index_root + s4;
    let s2 = u16_bytes(v.format_minor) + s3;
    let s1 = u16_bytes(v.format_major) + s2;
    assert(root_head(v) + rest =~= s1);
    lemma_scan_u16(v.format_major, s2);
    lemma_scan_u16(v.format_minor, s3);
    lemma_scan_take(v.inode_index_root, s4);
    lemma_scan_u64(v.root_dir_ino, rest);
}

proof fn lemma_root_middle(v: RootView, rest: Seq<u8>)
    requires
        root_ok(v),
    ensures
        root_middle(v).len() == 80,
        scan_root_middle(Ok(root_middle(v) + rest)) == (
            (v.snapshot_tree_root, v.model_index_root, v.segment_seq, v.index_epoch),
            Ok::<Seq<u8>, CodecError>(rest),
        ),
{
    let s4 = u64_bytes(v.index_epoch) + rest;
    let s3 = u64_bytes(v.segment_seq) + s4;
    let s2 = v.model_index_root + s3;
    let s1 = v.snapshot_tree_root + s2;
    assert(root_middle(v) + rest =~= s1);
    lemma_scan_take(v.snapshot_tree_root, s2);
    lemma_scan_take(v.model_index_root, s3);
    lemma_scan_u64(v.segment_seq, s4);
    lemma_scan_u64(v.index_epoch, rest);
}

proof fn lemma_root_tail(v: RootView, rest: Seq<u8>)
    requires
        root_ok(v),
    ensures
        root_tail(v).len() == 64,
        scan_root_tail(Ok(root_tail(v) + rest)) == (
            (v.uuid, v.generation, v.chunk_index_root, v.log_seq),
            Ok::<Seq<u8>, CodecError>(rest),
        ),
{
    let s4 = u64_bytes(v.log_seq) + rest;
    let s3 = v.chunk_index_root + s4;
    let s2 = u64_bytes(v.generation) + s3;
    let s1 = v.uuid + s2;
    assert(root_tail(v) + rest =~= s1);
    lemma_scan_take(v.uuid, s2);
    lemma_scan_u64(v.generation, s3);
    lemma_scan_take(v.chunk_index_root, s4);
    lemma_scan_u64(v.log_seq, rest);
}

proof fn lemma_unscan_head(s: Seq<u8>)
    requires
        scan_root_head(Ok(s)).1 is Ok,
    ensures
        ({
            let (h, st) = scan_root_head(Ok(s));
            &&& h.2.len() == 32
            &&& s == u16_bytes(h.0) + u16_bytes(h.1) + h.2 + u64_bytes(h.3) + st->Ok_0
        }),
{
    lemma_unscan_u16(s);
    let s1 = scan_u16(Ok(s)).1->Ok_0;
    lemma_unscan_u16(s1);
    let s2 = scan_u16(Ok(s1)).1->Ok_0;
    assert(s2 =~= s2.take(32) + s2.skip(32));
    lemma_unscan_u64(s2.skip(32));
    let (h, st) = scan_root_head(Ok(s));
    assert(s =~= u16_bytes(h.0) + u16_bytes(h.1) + h.2 + u64_bytes(h.3) + st->Ok_0);
}

proof fn lemma_unscan_middle(s: Seq<u8>)
    requires
        scan_root_middle(Ok(s)).1 is Ok,
    ensures
        ({
            let (m, st) = scan_root_middle(Ok(s));
            &&& m.0.len() == 32 && m.1.len() == 32
            &&& s == m.0 + m.1 + u64_bytes(m.2) + u64_bytes(m.3) + st->Ok_0
        }),
{
    let s1 = s.skip(32);
    assert(s =~= s.take(32) + s1);
    let s2 = s1.skip(32);
    assert(s1 =~= s1.take(32) + s2);
    lemma_unscan_u64(s2);
    let s3 = scan_u64(Ok(s2)).1->Ok_0;
    lemma_unscan_u64(s3);
    let (m, st) = scan_root_middle(Ok(s));
    assert(s =~= m.0 + m.1 + u64_bytes(m.2) + u64_bytes(m.3) + st->Ok_0);
}

proof fn lemma_unscan_tail(s: Seq<u8>)
    requires
        scan_root_tail(Ok(s)).1 is Ok,
    ensures
        ({
            let (t, st) = scan_root_tail(Ok(s));
            &&& t.0.len() == 16 && t.2.len() == 32
            &&& s == t.0 + u64_bytes(t.1) + t.2 + u64_bytes(t.3) + st->Ok_0
        }),
{
    let s1 = s.skip(16);
    assert(s =~= s.take(16) + s1);
    lemma_unscan_u64(s1);
    let s2 = scan_u64(Ok(s1)).1->Ok_0;
    let s3 = s2.skip(32);
    assert(s2 =~= s2.take(32) + s3);
    lemma_unscan_u64(s3);
    let (t, st) = scan_root_tail(Ok(s));
    assert(s =~= t.0 + u64_bytes(t.1) + t.2 + u64_bytes(t.3) + st->Ok_0);
}

/// A root that decodes is encoded by the bytes it came from.
pub proof fn decoded_root_encodes_back(b: Seq<u8>)
    requires
        parse_root(b) is Ok,
    ensures
        root_bytes(parse_root(b)->Ok_0) == b,
        root_ok(parse_root(b)->Ok_0),
{
    let v = parse_root(b)->Ok_0;
    lemma_unscan_head(b);
    let s1 = scan_root_head(Ok(b)).1->Ok_0;
    lemma_unscan_middle(s1);
    let s2 = scan_root_middle(Ok(s1)).1->Ok_0;
    lemma_unscan_tail(s2);
    let s3 = scan_root_tail(Ok(s2)).1->Ok_0;
    assert(s3 =~= Seq::empty());
    assert(root_head(v) + s1 =~= b);
    assert(root_middle(v) + s2 =~= s1);
    assert(root_tail(v) =~= s2);
    assert(root_bytes(v) =~= b);
}

/// Decoding an encoded root gives the root back.
pub proof fn root_round_trip(v: RootView)
    requires
        root_ok(v),
    ensures
        parse_root(root_bytes(v)) == Ok::<RootView, CodecError>(v),
        root_bytes(v).len() == 188,
{
    let none = Seq::<u8>::empty();
    let s3 = root_tail(v) + none;
    let s2 = root_middle(v) + s3;
    assert(s3 =~= root_tail(v));
    assert(root_bytes(v) =~= root_head(v) + s2);
    lemma_root_head(v, s2);
    lemma_root_middle(v, s3);
    lemma_root_tail(v, none);
}

/// What decodes was encoded under the current major version, with whole ids.
pub proof fn root_decoded_ok(bytes: Seq<u8>)
    requires
        parse_root(bytes) is Ok,
    ensures
        root_ok(parse_root(bytes)->Ok_0),
{
}

impl Root {
    /// Encode to the root payload.
    pub fn encode(&self) -> (r: Vec<u8>)
        ensures
            r@ == root_bytes(self@),
            r@.len() == 188,
    {
        let mut w = Writer::new();
        w.u16(self.format_major);
        w.u16(self.format_minor);
        w.bytes(self.inode_index_root.as_slice());
        w.u64(self.root_dir_ino);
        assert(w@ =~= root_head(self@));
        w.bytes(self.snapshot_tree_root.as_slice());
        w.bytes(self.model_index_root.as_slice());
        w.u64(self.segment_seq);
        w.u64(self.index_epoch);
        assert(w@ =~= root_head(self@) + root_middle(self@));
        w.bytes(self.uuid.as_slice());
        w.u64(self.generation);
        w.bytes(self.chunk_index_root.as_slice());
        w.u64(self.log_seq);
        assert(w@ =~= root_bytes(self@));
        proof {
            lemma_root_len(self@);
        }
        w.into_bytes()
    }

    /// Decode a root payload.
    pub fn decode(bytes: &[u8]) -> (r: Result<Root, CodecError>)
        ensures
            match r {
                Ok(v) => parse_root(bytes@) == Ok::<RootView, CodecError>(v@) && root_ok(v@),
                Err(e) => parse_root(bytes@) == Err::<RootView, CodecError>(e),
            },
    {
        let mut c = Cursor::new(bytes);
        let format_major: u16 = c.u16();
        let format_minor: u16 = c.u16();
        let inode_index_root = c.id();
        let root_dir_ino: u64 = c.u64();
        let snapshot_tree_root = c.id();
        let model_index_root = c.id();
        let segment_seq: u64 = c.u64();
        let index_epoch: u64 = c.u64();
        let uuid = uuid_from(c.take(16));
        let generation: u64 = c.u64();
        let chunk_index_root = c.id();
        let log_seq: u64 = c.u64();
        c.end();
        c.check(format_major == FORMAT_MAJOR, CodecError::Malformed);
        match c.result() {
            Err(e) => Err(e),
            Ok(_) => Ok(
                Root {
                    format_major,
                    format_minor,
                    inode_index_root,
                    root_dir_ino,
                    snapshot_tree_root,
                    model_index_root,
                    segment_seq,
                    index_epoch,
                    uuid,
                    generation,
                    chunk_index_root,
                    log_seq,
                },
            ),
        }
    }

    /// Content id of the root object.
    pub fn id(&self) -> (r: ChunkId)
        ensures
            r@ == digest(root_bytes(self@)),
    {
        ChunkId::of(&self.encode())
    }
}

proof fn lemma_root_len(v: RootView)
    requires
        v.inode_index_root.len() == 32,
        v.snapshot_tree_root.len() == 32,
        v.model_index_root.len() == 32,
        v.uuid.len() == 16,
        v.chunk_index_root.len() == 32,
    ensures
        root_bytes(v).len() == 188,
{
    let none = Seq::<u8>::empty();
    lemma_scan_u16(v.format_major, none);
    lemma_scan_u16(v.format_minor, none);
    lemma_scan_u64(v.root_dir_ino, none);
    lemma_scan_u64(v.segment_seq, none);
    lemma_scan_u64(v.index_epoch, none);
    lemma_scan_u64(v.generation, none);
    lemma_scan_u64(v.log_seq, none);
}

/// The dual-slot superblock view with generation selection.
#[derive(Debug, Clone, Copy, PartialEq, Eq)]
pub struct SuperblockPair {
    /// Slot A (generation even).
    pub a: Option<Superblock>,
    /// Slot B (generation odd).
    pub b: Option<Superblock>,
}

pub open spec fn slot_view(s: Option<Superblock>) -> Option<SuperblockView> {
    match s {
        Some(sb) => Some(sb@),
        None => None,
    }
}

/// The valid slot with the highest generation; slot B where they are equal.
pub open spec fn newest(
    a: Option<SuperblockView>,
    b: Option<SuperblockView>,
) -> Option<SuperblockView> {
    match (a, b) {
        (Some(x), Some(y)) => if x.generation > y.generation {
            Some(x)
        } else {
            Some(y)
        },
        (Some(x), None) => Some(x),
        (None, y) => y,
    }
}

/// What the bytes read at a slot say: nothing on a fresh file or where the slot
/// is torn or invalid; a slot cut short is an error.
pub open spec fn slot_reading(bytes: Seq<u8>) -> Result<Option<SuperblockView>, ()> {
    if bytes.len() == 0 {
        Ok(None)
    } else if bytes.len() < SUPERBLOCK_SLOT_SIZE {
        Err(())
    } else {
        match parse_slot(bytes) {
            Ok(v) => Ok(Some(v)),
            Err(_) => Ok(None),
        }
    }
}

/// Interpret the bytes read at a superblock slot.
pub fn read_slot(bytes: &[u8]) -> (r: Result<Option<Superblock>, StoreError>)
    ensures
        match r {
            Ok(s) => slot_reading(bytes@) == Ok::<Option<SuperblockView>, ()>(slot_view(s)),
            Err(e) => e is Superblock && slot_reading(bytes@) is Err,
        },
{
    if bytes.len() == 0 {
        return Ok(None);
    }
    if bytes.len() < 4096 {
        return Err(StoreError::Superblock("truncated superblock slot".to_string()));
    }
    match Superblock::decode(bytes) {
        Ok(sb) => Ok(Some(sb)),
        Err(_) => Ok(None),
    }
}

impl SuperblockPair {
    /// Interpret the bytes of both slots.
    pub fn read(a: &[u8], b: &[u8]) -> (r: Result<SuperblockPair, StoreError>)
        ensures
            match r {
                Ok(p) => slot_reading(a@) == Ok::<Option<SuperblockView>, ()>(slot_view(p.a))
                    && slot_reading(b@) == Ok::<Option<SuperblockView>, ()>(slot_view(p.b)),
                Err(e) => e is Superblock && (slot_reading(a@) is Err || slot_reading(b@) is Err),
            },
    {
        let a = match read_slot(a) {
            Ok(s) => s,
            Err(e) => return Err(e),
        };
        let b = match read_slot(b) {
            Ok(s) => s,
            Err(e) => return Err(e),
        };
        Ok(SuperblockPair { a, b })
    }

    /// Choose the highest valid committed generation.
    pub fn choose_newest(&self) -> (r: Result<Superblock, StoreError>)
        ensures
            match r {
                Ok(sb) => newest(slot_view(self.a), slot_view(self.b)) == Some(sb@),
                Err(e) => e is Superblock && self.a is None && self.b is None,
            },
    {
        match (self.a, self.b) {
            (Some(x), Some(y)) => if x.generation > y.generation {
                Ok(x)
            } else {
                Ok(y)
            },
            (Some(x), None) => Ok(x),
            (None, Some(y)) => Ok(y),
            (None, None) => Err(
                StoreError::Superblock("no valid superblock found".to_string()),
            ),
        }
    }

    /// The inactive slot (the one a new generation commits to).
    pub fn inactive_slot(&self, next_generation: u64) -> (r: u64)
        ensures
            r == slot_of_generation(next_generation),
    {
        slot_for_generation(next_generation)
    }
}

/// A new generation never overwrites the slot of the generation before it.
pub proof fn slots_alternate(generation: u64)
    requires
        generation < u64::MAX,
    ensures
        slot_of_generation(generation) != slot_of_generation((generation + 1) as u64),
{
}

/// Where the slot of the newer generation is torn, the older one is chosen.
pub proof fn torn_slot_falls_back(a: Option<SuperblockView>, b: Option<SuperblockView>)
    ensures
        a is None ==> newest(a, b) == b,
        b is None ==> newest(a, b) == a,
        newest(a, b) is None <==> a is None && b is None,
        newest(a, b) matches Some(n) ==> (a matches Some(x) ==> x.generation <= n.generation) && (
        b matches Some(y) ==> y.generation <= n.generation),
{
}

} // verus!
