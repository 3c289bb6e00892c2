//! The record envelope: header, checksum and content id around a payload.

use vstd::prelude::*;

use crate::bytes::{copy_bytes, copy_range};
use crate::chunk::{digest, ChunkId};
use crate::codec::{lemma_scan_take, lemma_scan_u16, lemma_scan_u32, lemma_scan_u64, scan_check,
    scan_take, scan_u16, scan_u32, scan_u64, u16_bytes, u32_bytes, u64_bytes, CodecError, Cursor,
    Scan, Writer};
use crate::crc::{crc32, crc32_of};
use crate::version::{RecordTag, FORMAT_MAJOR, RECORD_MAGIC};

verus! {

/// Record header length.
pub const HEADER_SIZE: u64 = 58;

/// The record carries a materialized length.
pub const FLAG_HAS_MATERIALIZED_LEN: u16 = 1;

/// A decoded record.
pub struct Record {
    pub tag: RecordTag,
    pub flags: u16,
    pub stored_len: u32,
    pub materialized_len: Option<u64>,
    pub content_id: ChunkId,
    pub payload: Vec<u8>,
    /// Record start offset.
    pub offset: u64,
}

/// The contents of a record.
#[verifier::ext_equal]
pub struct RecordView {
    pub tag: RecordTag,
    pub flags: u16,
    pub materialized_len: Option<u64>,
    pub content_id: Seq<u8>,
    pub payload: Seq<u8>,
}

impl View for Record {
    type V = RecordView;

    open spec fn view(&self) -> RecordView {
        RecordView {
            tag: self.tag,
            flags: self.flags,
            materialized_len: self.materialized_len,
            content_id: self.content_id@,
            payload: self.payload@,
        }
    }
}

/// The header up to the checksum.
pub open spec fn header_bytes(v: RecordView) -> Seq<u8> {
    u32_bytes(RECORD_MAGIC) + u16_bytes(FORMAT_MAJOR) + u16_bytes(v.tag.code_of()) + u16_bytes(
        v.flags,
    ) + u32_bytes(v.payload.len() as u32) + u64_bytes(
        match v.materialized_len {
            Some(n) => n,
            None => 0,
        },
    ) + v.content_id
}

/// The bytes of a record: header, checksum over header and payload, payload.
pub open spec fn record_bytes(v: RecordView) -> Seq<u8> {
    header_bytes(v) + u32_bytes(crc32_of(header_bytes(v) + v.payload)) + v.payload
}

/// The record for a payload.
pub open spec fn record_of(
    tag: RecordTag,
    flags: u16,
    materialized_len: Option<u64>,
    payload: Seq<u8>,
) -> RecordView {
    RecordView { tag, flags, materialized_len, content_id: digest(payload), payload }
}

/// A record that reads back.
pub open spec fn record_ok(v: RecordView) -> bool {
    &&& v.payload.len() <= u32::MAX
    &&& v.content_id.len() == 32
    &&& (v.flags & FLAG_HAS_MATERIALIZED_LEN != 0) == (v.materialized_len is Some)
}

/// Every byte of `s` is zero.
pub open spec fn all_zero(s: Seq<u8>) -> bool {
    forall|i: int| 0 <= i < s.len() ==> #[trigger] s[i] == 0
}

/// The first four bytes, or all there are.
pub open spec fn front(s: Seq<u8>) -> Seq<u8> {
    if s.len() < 4 {
        s
    } else {
        s.take(4)
    }
}

/// The record at the front of `s`: `None` at zero padding, truncated where the
/// input ends inside it.
#[verifier::opaque]
pub open spec fn parse_record(s: Seq<u8>) -> Result<Option<RecordView>, CodecError> {
    if all_zero(front(s)) {
        Ok(None)
    } else {
        let st: Scan = scan_check(Ok(s), s.len() >= HEADER_SIZE, CodecError::Truncated);
        let ((magic, version, code, flags, stored, materialized), st) = scan_header(st);
        let st = scan_check(
            st,
            magic == RECORD_MAGIC && version == FORMAT_MAJOR && RecordTag::with_code(code) is Some,
            CodecError::Malformed,
        );
        let (content_id, st) = scan_take(st, 32);
        let (sum, st) = scan_u32(st);
        let (payload, st) = scan_take(st, stored as nat);
        let st = scan_check(st, sum == crc32_of(s.take(54) + payload), CodecError::Malformed);
        match st {
            Err(e) => Err(e),
            Ok(_) => Ok(
                Some(
                    RecordView {
                        tag: RecordTag::with_code(code)->0,
                        flags,
                        materialized_len: if flags & FLAG_HAS_MATERIALIZED_LEN != 0 {
                            Some(materialized)
                        } else {
                            None
                        },
                        content_id,
                        payload,
                    },
                ),
            ),
        }
    }
}

/// Total on-disk size.
pub open spec fn record_size(v: RecordView) -> nat {
    (HEADER_SIZE + v.payload.len()) as nat
}

proof fn lemma_header_len(v: RecordView)
    requires
        v.content_id.len() == 32,
    ensures
        header_bytes(v).len() == 54,
{
    let none = Seq::<u8>::empty();
    lemma_scan_u32(RECORD_MAGIC, none);
    lemma_scan_u16(FORMAT_MAJOR, none);
    lemma_scan_u16(v.tag.code_of(), none);
    lemma_scan_u16(v.flags, none);
    lemma_scan_u32(v.payload.len() as u32, none);
    lemma_scan_u64(
        match v.materialized_len {
            Some(n) => n,
            None => 0,
        },
        none,
    );
}

/// The payload stands behind the header.
pub proof fn lemma_record_payload(v: RecordView)
    requires
        v.content_id.len() == 32,
    ensures
        record_bytes(v).len() == HEADER_SIZE + v.payload.len(),
        record_bytes(v).subrange(HEADER_SIZE as int, (HEADER_SIZE + v.payload.len()) as int)
            == v.payload,
{
    lemma_header_len(v);
    let sum = crc32_of(header_bytes(v) + v.payload);
    lemma_scan_u32(sum, Seq::empty());
    assert(u32_bytes(sum).len() == 4);
    assert(record_bytes(v).subrange(HEADER_SIZE as int, (HEADER_SIZE + v.payload.len()) as int)
        =~= v.payload);
}

/// The fields between the magic and the content id.
pub open spec fn scan_header(st: Scan) -> ((u32, u16, u16, u16, u32, u64), Scan) {
    let (magic, st) = scan_u32(st);
    let (version, st) = scan_u16(st);
    let (code, st) = scan_u16(st);
    let (flags, st) = scan_u16(st);
    let (stored, st) = scan_u32(st);
    let (materialized, st) = scan_u64(st);
    ((magic, version, code, flags, stored, materialized), st)
}

/// Decoding an encoded record gives the record back, whatever follows it.
#[verifier::spinoff_prover]
pub proof fn record_round_trip(v: RecordView, rest: Seq<u8>)
    requires
        record_ok(v),
    ensures
        record_bytes(v).len() == record_size(v),
        parse_record(record_bytes(v) + rest) == Ok::<Option<RecordView>, CodecError>(Some(v)),
{
    reveal(parse_record);
    lemma_header_len(v);
    let sum = crc32_of(header_bytes(v) + v.payload);
    let s9 = v.payload + rest;
    let s8 = u32_bytes(sum) + s9;
    let whole = record_bytes(v) + rest;
    assert(whole =~= header_bytes(v) + s8);
    lemma_scan_u32(sum, s9);
    assert(whole.take(54) =~= header_bytes(v));
    lemma_scan_header(v, s8);
    lemma_scan_take(v.content_id, s8);
    lemma_scan_take(v.payload, rest);
    lemma_magic_front(v, s8);
}

proof fn lemma_scan_header(v: RecordView, rest: Seq<u8>)
    requires
        record_ok(v),
    ensures
        scan_header(Ok(header_bytes(v) + rest)) == (
            (
                RECORD_MAGIC,
                FORMAT_MAJOR,
                v.tag.code_of(),
                v.flags,
                v.payload.len() as u32,
                match v.materialized_len {
                    Some(n) => n,
                    None => 0,
                },
            ),
            Ok::<Seq<u8>, CodecError>(v.content_id + rest),
        ),
{
    let m = match v.materialized_len {
        Some(n) => n,
        None => 0,
    };
    let s7 = v.content_id + rest;
    let s6 = u64_bytes(m) + s7;
    let s5 = u32_bytes(v.payload.len() as u32) + s6;
    let s4 = u16_bytes(v.flags) + s5;
    let s3 = u16_bytes(v.tag.code_of()) + s4;
    let s2 = u16_bytes(FORMAT_MAJOR) + s3;
    lemma_header_split(v, rest);
    lemma_scan_u32(RECORD_MAGIC, s2);
    lemma_scan_u16(FORMAT_MAJOR, s3);
    lemma_scan_u16(v.tag.code_of(), s4);
    lemma_scan_u16(v.flags, s5);
    lemma_scan_u32(v.payload.len() as u32, s6);
    lemma_scan_u64(m, s7);
}

proof fn lemma_magic_front(v: RecordView, rest: Seq<u8>)
    requires
        record_ok(v),
    ensures
        !all_zero(front(header_bytes(v) + rest)),
{
    lemma_header_len(v);
    lemma_header_split(v, rest);
    lemma_scan_u32(RECORD_MAGIC, Seq::empty());
    assert(front(header_bytes(v) + rest) =~= u32_bytes(RECORD_MAGIC));
    lemma_magic_nonzero();
}

proof fn lemma_magic_nonzero()
    ensures
        !all_zero(u32_bytes(RECORD_MAGIC)),
{
    reveal_with_fuel(crate::bytes::le_bytes, 5);
    assert(u32_bytes(RECORD_MAGIC)[0] == 0x45);
}

proof fn lemma_header_split(v: RecordView, rest: Seq<u8>)
    ensures
        header_bytes(v) + rest == u32_bytes(RECORD_MAGIC) + (u16_bytes(FORMAT_MAJOR) + (u16_bytes(
            v.tag.code_of(),
        ) + (u16_bytes(v.flags) + (u32_bytes(v.payload.len() as u32) + (u64_bytes(
            match v.materialized_len {
                Some(n) => n,
                None => 0,
            },
        ) + (v.content_id + rest)))))),
{
    let m = match v.materialized_len {
        Some(n) => n,
        None => 0,
    };
    let a = u32_bytes(RECORD_MAGIC);
    let b = u16_bytes(FORMAT_MAJOR);
    let c = u16_bytes(v.tag.code_of());
    let d = u16_bytes(v.flags);
    let e = u32_bytes(v.payload.len() as u32);
    let f = u64_bytes(m);
    let g = v.content_id;
    assert(header_bytes(v) == a + b + c + d + e + f + g);
    assert(a + b + c + d + e + f + g + rest =~= a + (b + (c + (d + (e + (f + (g + rest)))))));
}

/// Encode a record around `payload`.
pub fn encode(
    tag: RecordTag,
    flags: u16,
    materialized_len: Option<u64>,
    payload: &[u8],
) -> (r: Vec<u8>)
    requires
        payload@.len() <= u32::MAX,
    ensures
        r@ == record_bytes(record_of(tag, flags, materialized_len, payload@)),
        r@.len() == HEADER_SIZE + payload@.len(),
{
    let ghost v = record_of(tag, flags, materialized_len, payload@);
    let id = ChunkId::of(payload);
    let mut w = Writer::new();
    w.u32(RECORD_MAGIC);
    w.u16(FORMAT_MAJOR);
    w.u16(tag.code());
    w.u16(flags);
    w.u32(payload.len() as u32);
    w.u64(
        match materialized_len {
            Some(n) => n,
            None => 0,
        },
    );
    w.bytes(id.as_slice());
    assert(w@ =~= header_bytes(v));
    let head = w.into_bytes();
    let mut summed = copy_bytes(&head);
    crate::bytes::append_bytes(&mut summed, payload);
    let sum: u32 = crc32(&summed);
    let mut out = Writer::new();
    out.bytes(&head);
    out.u32(sum);
    out.bytes(payload);
    proof {
        assert(out@ =~= record_bytes(v));
        lemma_header_len(v);
        lemma_scan_u32(sum, Seq::empty());
    }
    out.into_bytes()
}

fn is_zero_front(bytes: &[u8], at: usize) -> (r: bool)
    requires
        at <= bytes@.len(),
    ensures
        r == all_zero(front(bytes@.skip(at as int))),
{
    let total: usize = bytes.len();
    let n: usize = if total - at < 4 {
        total - at
    } else {
        4
    };
    let ghost f = front(bytes@.skip(at as int));
    let mut i: usize = 0;
    while i < n
        invariant
            i <= n,
            at + n <= total,
            total == bytes@.len(),
            n <= 4,
            f == front(bytes@.skip(at as int)),
            f.len() == n,
            forall|j: int| 0 <= j < n ==> f[j] == bytes@[at + j],
            forall|j: int| 0 <= j < i ==> f[j] == 0,
        decreases n - i,
    {
        assert(f[i as int] == bytes@[at + i]);
        if bytes[at + i] != 0 {
            return false;
        }
        i += 1;
    }
    true
}

/// Decode the record at `offset`. `Ok(None)` at zero padding;
/// `Err(Truncated)` where the input ends inside the record.
pub fn decode(bytes: &[u8], offset: u64) -> (r: Result<Option<Record>, CodecError>)
    requires
        offset <= bytes@.len(),
    ensures
        match r {
            Ok(Some(rec)) => {
                &&& parse_record(bytes@.skip(offset as int)) == Ok::<
                    Option<RecordView>,
                    CodecError,
                >(Some(rec@))
                &&& rec.offset == offset
                &&& rec.stored_len == rec.payload@.len()
                &&& offset + record_size(rec@) <= bytes@.len()
                &&& rec.payload@ == bytes@.subrange(
                    offset + HEADER_SIZE,
                    offset + record_size(rec@),
                )
            },
            Ok(None) => parse_record(bytes@.skip(offset as int)) == Ok::<
                Option<RecordView>,
                CodecError,
            >(None),
            Err(e) => parse_record(bytes@.skip(offset as int)) == Err::<
                Option<RecordView>,
                CodecError,
            >(e),
        },
{
    let total: usize = bytes.len();
    let at: usize = offset as usize;
    assert(at == offset && total == bytes@.len());
    let ghost s = bytes@.skip(at as int);
    proof {
        reveal(parse_record);
    }
    if is_zero_front(bytes, at) {
        return Ok(None);
    }
    let tail = vstd::slice::slice_subrange(bytes, at, bytes.len());
    assert(tail@ =~= s);
    let mut c = Cursor::new(tail);
    c.check(tail.len() >= 58, CodecError::Truncated);
    let magic: u32 = c.u32();
    let version: u16 = c.u16();
    let code: u16 = c.u16();
    let flags: u16 = c.u16();
    let stored: u32 = c.u32();
    let materialized: u64 = c.u64();
    let tag = RecordTag::from_code(code);
    c.check(
        magic == RECORD_MAGIC && version == FORMAT_MAJOR && tag.is_some(),
        CodecError::Malformed,
    );
    let content_id = c.id();
    let sum: u32 = c.u32();
    let payload = c.take(stored as usize);
    match c.result() {
        Err(e) => return Err(e),
        Ok(_) => {},
    }
    proof {
        assert(s.len() >= 58);
        lemma_payload_at(s);
    }
    let mut summed = copy_range(tail, 0, 54);
    assert(summed@ =~= s.take(54));
    crate::bytes::append_bytes(&mut summed, payload);
    c.check(sum == crc32(&summed), CodecError::Malformed);
    match c.result() {
        Err(e) => Err(e),
        Ok(_) => match tag {
            None => Err(CodecError::Malformed),
            Some(tag) => Ok(
                Some(
                    Record {
                        tag,
                        flags,
                        stored_len: stored,
                        materialized_len: if flags & FLAG_HAS_MATERIALIZED_LEN != 0 {
                            Some(materialized)
                        } else {
                            None
                        },
                        content_id,
                        payload: copy_bytes(payload),
                        offset,
                    },
                ),
            ),
        },
    }
}

/// The payload of a record that parses lies right behind the header.
proof fn lemma_payload_at(s: Seq<u8>)
    requires
        s.len() >= 58,
    ensures
        ({
            let (h, st) = scan_header(Ok(s));
            let (id, st) = scan_take(st, 32);
            let (sum, st) = scan_u32(st);
            let (payload, st) = scan_take(st, h.4 as nat);
            st is Ok ==> 58 + h.4 <= s.len() && payload == s.subrange(58, 58 + h.4)
        }),
{
    let a = s.skip(4);
    assert(a.skip(2) =~= s.skip(6));
    assert(s.skip(6).skip(2) =~= s.skip(8));
    assert(s.skip(8).skip(2) =~= s.skip(10));
    assert(s.skip(10).skip(4) =~= s.skip(14));
    assert(s.skip(14).skip(8) =~= s.skip(22));
    assert(s.skip(22).skip(32) =~= s.skip(54));
    assert(s.skip(54).skip(4) =~= s.skip(58));
    let (h, st) = scan_header(Ok(s));
    assert(st == Ok::<Seq<u8>, CodecError>(s.skip(22)));
    if 58 + h.4 <= s.len() {
        assert(s.skip(58).take(h.4 as int) =~= s.subrange(58, 58 + h.4));
    }
}

/// A record that parses is not affected by what lies behind it, and lies within
/// the input.
pub proof fn lemma_parse_local(s: Seq<u8>, n: nat)
    requires
        parse_record(s) matches Ok(Some(_)),
        n <= s.len(),
    ensures
        record_size(parse_record(s)->Ok_0->0) <= s.len(),
        n >= record_size(parse_record(s)->Ok_0->0) ==> parse_record(s.take(n as int))
            == parse_record(s),
{
    reveal(parse_record);
    lemma_payload_at(s);
    let v = parse_record(s)->Ok_0->0;
    if n >= record_size(v) {
        let t = s.take(n as int);
        lemma_payload_at(t);
        lemma_header_local(s, n);
        assert(front(t) =~= front(s));
        assert(t.take(54) =~= s.take(54));
        assert(t.subrange(58, 58 + v.payload.len() as int) =~= s.subrange(
            58,
            58 + v.payload.len() as int,
        ));
    }
}

proof fn lemma_header_local(s: Seq<u8>, n: nat)
    requires
        58 <= n <= s.len(),
    ensures
        ({
            let t = s.take(n as int);
            &&& scan_header(Ok(t)).0 == scan_header(Ok(s)).0
            &&& scan_header(Ok(t)).1 == Ok::<Seq<u8>, CodecError>(t.skip(22))
            &&& scan_header(Ok(s)).1 == Ok::<Seq<u8>, CodecError>(s.skip(22))
            &&& scan_take(Ok(t.skip(22)), 32) == (s.subrange(22, 54), Ok::<Seq<u8>, CodecError>(
                t.skip(54),
            ))
            &&& scan_take(Ok(s.skip(22)), 32) == (s.subrange(22, 54), Ok::<Seq<u8>, CodecError>(
                s.skip(54),
            ))
            &&& scan_u32(Ok(t.skip(54))).0 == scan_u32(Ok(s.skip(54))).0
            &&& scan_u32(Ok(t.skip(54))).1 == Ok::<Seq<u8>, CodecError>(t.skip(58))
            &&& scan_u32(Ok(s.skip(54))).1 == Ok::<Seq<u8>, CodecError>(s.skip(58))
        }),
{
    let t = s.take(n as int);
    lemma_skips(s);
    lemma_skips(t);
    assert(t.take(4) =~= s.take(4));
    assert(t.skip(4).take(2) =~= s.skip(4).take(2));
    assert(t.skip(6).take(2) =~= s.skip(6).take(2));
    assert(t.skip(8).take(2) =~= s.skip(8).take(2));
    assert(t.skip(10).take(4) =~= s.skip(10).take(4));
    assert(t.skip(14).take(8) =~= s.skip(14).take(8));
    assert(t.skip(22).take(32) =~= s.subrange(22, 54));
    assert(s.skip(22).take(32) =~= s.subrange(22, 54));
    assert(t.skip(54).take(4) =~= s.skip(54).take(4));
}

proof fn lemma_skips(s: Seq<u8>)
    requires
        s.len() >= 58,
    ensures
        s.skip(4).skip(2) == s.skip(6),
        s.skip(6).skip(2) == s.skip(8),
        s.skip(8).skip(2) == s.skip(10),
        s.skip(10).skip(4) == s.skip(14),
        s.skip(14).skip(8) == s.skip(22),
        s.skip(22).skip(32) == s.skip(54),
        s.skip(54).skip(4) == s.skip(58),
{
    assert(s.skip(4).skip(2) =~= s.skip(6));
    assert(s.skip(6).skip(2) =~= s.skip(8));
    assert(s.skip(8).skip(2) =~= s.skip(10));
    assert(s.skip(10).skip(4) =~= s.skip(14));
    assert(s.skip(14).skip(8) =~= s.skip(22));
    assert(s.skip(22).skip(32) =~= s.skip(54));
    assert(s.skip(54).skip(4) =~= s.skip(58));
}

} // verus!
