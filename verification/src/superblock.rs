//! The superblock slot: which root object is current.

use vstd::prelude::*;

use crate::bytes::{copy_range, append_bytes};
use crate::chunk::{zero_id, ChunkId};
use crate::codec::{lemma_scan_take, lemma_scan_u16, lemma_scan_u32, lemma_scan_u64, scan_check,
    scan_take, scan_u16, scan_u32, scan_u64, u16_bytes, u32_bytes, u64_bytes, CodecError, Cursor,
    Scan, Writer};
use crate::crc::{crc32, crc32_of};
use crate::version::{FORMAT_MAJOR, FORMAT_MINOR, SUPERBLOCK_MAGIC, SUPERBLOCK_SLOT_A_OFFSET,
    SUPERBLOCK_SLOT_B_OFFSET, SUPERBLOCK_SLOT_SIZE};

verus! {

/// A superblock slot.
#[derive(Debug, Clone, Copy, PartialEq, Eq)]
pub struct Superblock {
    /// Filesystem UUID.
    pub uuid: [u8; 16],
    /// Commit generation.
    pub generation: u64,
    /// Content id of the root object.
    pub root_object_id: ChunkId,
    /// Current segment sequence.
    pub segment_seq: u64,
    /// Incompatible feature bits.
    pub incompat: u64,
}

/// Mathematical [`Superblock`].
#[verifier::ext_equal]
pub struct SuperblockView {
    pub uuid: Seq<u8>,
    pub generation: u64,
    pub root_object_id: Seq<u8>,
    pub segment_seq: u64,
    pub incompat: u64,
}

impl View for Superblock {
    type V = SuperblockView;

    open spec fn view(&self) -> SuperblockView {
        SuperblockView {
            uuid: self.uuid@,
            generation: self.generation,
            root_object_id: self.root_object_id@,
            segment_seq: self.segment_seq,
            incompat: self.incompat,
        }
    }
}

impl Default for Superblock {
    fn default() -> (r: Superblock)
        ensures
            r@.generation == 0,
            r@.root_object_id == zero_id(),
            r@.segment_seq == 0,
            r@.incompat == 0,
            forall|i: int| 0 <= i < 16 ==> r@.uuid[i] == 0,
    {
        Superblock {
            uuid: [0u8; 16],
            generation: 0,
            root_object_id: ChunkId::zero(),
            segment_seq: 0,
            incompat: 0,
        }
    }
}

/// The slot up to the checksum.
pub open spec fn slot_body(v: SuperblockView) -> Seq<u8> {
    u32_bytes(SUPERBLOCK_MAGIC) + u16_bytes(FORMAT_MAJOR) + u16_bytes(FORMAT_MINOR) + v.uuid
        + u64_bytes(v.generation) + v.root_object_id + u64_bytes(v.segment_seq) + u64_bytes(
        v.incompat,
    )
}

pub open spec fn zeros(n: nat) -> Seq<u8> {
    Seq::new(n, |i: int| 0u8)
}

/// The slot: body, checksum, zero padding to the slot size.
pub open spec fn slot_bytes(v: SuperblockView) -> Seq<u8> {
    slot_body(v) + u32_bytes(crc32_of(slot_body(v))) + zeros(4012)
}

pub open spec fn slot_ok(v: SuperblockView) -> bool {
    v.uuid.len() == 16 && v.root_object_id.len() == 32
}

/// The superblock behind a slot, or why there is none.
pub open spec fn parse_slot(s: Seq<u8>) -> Result<SuperblockView, CodecError> {
    let st: Scan = scan_check(Ok(s), s.len() >= SUPERBLOCK_SLOT_SIZE, CodecError::Truncated);
    let (magic, st) = scan_u32(st);
    let (major, st) = scan_u16(st);
    let (minor, st) = scan_u16(st);
    let (uuid, st) = scan_take(st, 16);
    let (generation, st) = scan_u64(st);
    let (root_object_id, st) = scan_take(st, 32);
    let (segment_seq, st) = scan_u64(st);
    let (incompat, st) = scan_u64(st);
    let (sum, st) = scan_u32(st);
    let st = scan_check(
        st,
        magic == SUPERBLOCK_MAGIC && major == FORMAT_MAJOR && sum == crc32_of(s.take(80)),
        CodecError::Malformed,
    );
    match st {
        Err(e) => Err(e),
        Ok(_) => Ok(
            SuperblockView { uuid, generation, root_object_id, segment_seq, incompat },
        ),
    }
}

proof fn lemma_slot_split(v: SuperblockView, rest: Seq<u8>)
    ensures
        slot_body(v) + rest == u32_bytes(SUPERBLOCK_MAGIC) + (u16_bytes(FORMAT_MAJOR) + (u16_bytes(
            FORMAT_MINOR,
        ) + (v.uuid + (u64_bytes(v.generation) + (v.root_object_id + (u64_bytes(v.segment_seq) + (
        u64_bytes(v.incompat) + rest))))))),
{
    let a = u32_bytes(SUPERBLOCK_MAGIC);
    let b = u16_bytes(FORMAT_MAJOR);
    let c = u16_bytes(FORMAT_MINOR);
    let d = v.uuid;
    let e = u64_bytes(v.generation);
    let f = v.root_object_id;
    let g = u64_bytes(v.segment_seq);
    let h = u64_bytes(v.incompat);
    assert(slot_body(v) == a + b + c + d + e + f + g + h);
    assert(a + b + c + d + e + f + g + h + rest =~= a + (b + (c + (d + (e + (f + (g + (h
        + rest))))))));
}

proof fn lemma_slot_len(v: SuperblockView)
    requires
        slot_ok(v),
    ensures
        slot_body(v).len() == 80,
        slot_bytes(v).len() == SUPERBLOCK_SLOT_SIZE,
{
    let none = Seq::<u8>::empty();
    lemma_scan_u32(SUPERBLOCK_MAGIC, none);
    lemma_scan_u16(FORMAT_MAJOR, none);
    lemma_scan_u16(FORMAT_MINOR, none);
    lemma_scan_u64(v.generation, none);
    lemma_scan_u64(v.segment_seq, none);
    lemma_scan_u64(v.incompat, none);
    lemma_scan_u32(crc32_of(slot_body(v)), none);
}

/// Decoding an encoded slot gives the superblock back.
#[verifier::spinoff_prover]
pub proof fn slot_round_trip(v: SuperblockView)
    requires
        slot_ok(v),
    ensures
        slot_bytes(v).len() == SUPERBLOCK_SLOT_SIZE,
        parse_slot(slot_bytes(v)) == Ok::<SuperblockView, CodecError>(v),
{
    lemma_slot_len(v);
    let sum = crc32_of(slot_body(v));
    let pad = zeros(4012);
    let s9 = u32_bytes(sum) + pad;
    let s8 = u64_bytes(v.incompat) + s9;
    let s7 = u64_bytes(v.segment_seq) + s8;
    let s6 = v.root_object_id + s7;
    let s5 = u64_bytes(v.generation) + s6;
    let s4 = v.uuid + s5;
    let s3 = u16_bytes(FORMAT_MINOR) + s4;
    let s2 = u16_bytes(FORMAT_MAJOR) + s3;
    lemma_slot_split(v, s9);
    assert(slot_bytes(v) =~= slot_body(v) + s9);
    assert(slot_bytes(v).take(80) =~= slot_body(v)) by {
        assert(slot_bytes(v) =~= slot_body(v) + s9);
    }
    lemma_scan_u32(SUPERBLOCK_MAGIC, s2);
    lemma_scan_u16(FORMAT_MAJOR, s3);
    lemma_scan_u16(FORMAT_MINOR, s4);
    lemma_scan_take(v.uuid, s5);
    lemma_scan_u64(v.generation, s6);
    lemma_scan_take(v.root_object_id, s7);
    lemma_scan_u64(v.segment_seq, s8);
    lemma_scan_u64(v.incompat, s9);
    lemma_scan_u32(sum, pad);
}

/// The sixteen bytes of a uuid.
pub fn uuid_from(b: &[u8]) -> (r: [u8; 16])
    ensures
        b@.len() == 16 ==> r@ == b@,
{
    let mut out: [u8; 16] = [0u8; 16];
    if b.len() == 16 {
        let mut i: usize = 0;
        while i < 16
            invariant
                i <= 16,
                b@.len() == 16,
                forall|j: int| 0 <= j < i ==> out@[j] == b@[j],
            decreases 16 - i,
        {
            out[i] = b[i];
            i += 1;
        }
        assert(out@ =~= b@);
    }
    out
}

impl Superblock {
    /// Encode to a full slot.
    pub fn encode(&self) -> (r: Vec<u8>)
        ensures
            r@ == slot_bytes(self@),
            r@.len() == SUPERBLOCK_SLOT_SIZE,
    {
        let mut w = Writer::new();
        w.u32(SUPERBLOCK_MAGIC);
        w.u16(FORMAT_MAJOR);
        w.u16(FORMAT_MINOR);
        w.bytes(self.uuid.as_slice());
        w.u64(self.generation);
        w.bytes(self.root_object_id.as_slice());
        w.u64(self.segment_seq);
        w.u64(self.incompat);
        assert(w@ =~= slot_body(self@));
        let mut out = w.into_bytes();
        let sum: u32 = crc32(&out);
        let mut tail = Writer::new();
        tail.u32(sum);
        append_bytes(&mut out, &tail.into_bytes());
        let ghost before = out@;
        let mut i: usize = 0;
        while i < 4012
            invariant
                i <= 4012,
                out@ == before + zeros(i as nat),
            decreases 4012 - i,
        {
            out.push(0);
            assert(out@ =~= before + zeros((i + 1) as nat));
            i += 1;
        }
        proof {
            assert(out@ =~= slot_bytes(self@));
            lemma_slot_len(self@);
        }
        out
    }

    /// Decode a slot.
    pub fn decode(bytes: &[u8]) -> (r: Result<Superblock, CodecError>)
        ensures
            match r {
                Ok(sb) => parse_slot(bytes@) == Ok::<SuperblockView, CodecError>(sb@),
                Err(e) => parse_slot(bytes@) == Err::<SuperblockView, CodecError>(e),
            },
    {
        let mut c = Cursor::new(bytes);
        c.check(bytes.len() >= 4096, CodecError::Truncated);
        let magic: u32 = c.u32();
        let major: u16 = c.u16();
        let _minor: u16 = c.u16();
        let uuid = uuid_from(c.take(16));
        let generation: u64 = c.u64();
        let root_object_id = c.id();
        let segment_seq: u64 = c.u64();
        let incompat: u64 = c.u64();
        let sum: u32 = c.u32();
        match c.result() {
            Err(e) => return Err(e),
            Ok(_) => {},
        }
        let body = copy_range(bytes, 0, 80);
        assert(body@ =~= bytes@.take(80));
        c.check(
            magic == SUPERBLOCK_MAGIC && major == FORMAT_MAJOR && sum == crc32(&body),
            CodecError::Malformed,
        );
        match c.result() {
            Err(e) => Err(e),
            Ok(_) => Ok(
                Superblock { uuid, generation, root_object_id, segment_seq, incompat },
            ),
        }
    }
}

/// The slot that a generation commits to: even generations to A, odd to B.
pub open spec fn slot_of_generation(generation: u64) -> u64 {
    if generation % 2 == 0 {
        SUPERBLOCK_SLOT_A_OFFSET
    } else {
        SUPERBLOCK_SLOT_B_OFFSET
    }
}

/// Offset of the slot that a generation commits to.
pub fn slot_for_generation(generation: u64) -> (r: u64)
    ensures
        r == slot_of_generation(generation),
{
    if generation % 2 == 0 {
        SUPERBLOCK_SLOT_A_OFFSET
    } else {
        SUPERBLOCK_SLOT_B_OFFSET
    }
}

} // verus!
