//! Append-only segment files.
//!
//! A segment is the magic followed by records. Records are appended
//! sequentially; recovery scans forward, and a torn tail is detected by
//! envelope validation and ignored.

use vstd::prelude::*;

use crate::bytes::append_bytes;
use crate::chunk::ChunkId;
use crate::codec::{lemma_scan_u32, u32_bytes, CodecError, Cursor};
use crate::error::{SegmentError, StoreError};
use crate::io::{file_of, written, IoBackend};
use crate::record::{self, parse_record, record_bytes, record_ok, record_round_trip, record_size,
    RecordView, HEADER_SIZE};
use crate::root::{parse_root, root_bytes, Root, RootView};
use crate::superblock::{Superblock, SuperblockView};
use crate::version::{RecordTag, SEGMENT_MAGIC};

verus! {

// ---------------------------------------------------------------------------
// Names
// ---------------------------------------------------------------------------

/// The decimal digits of `v` in ASCII.
pub open spec fn decimal(v: nat) -> Seq<u8>
    decreases v,
{
    if v < 10 {
        seq![(48 + v) as u8]
    } else {
        decimal(v / 10).push((48 + v % 10) as u8)
    }
}

/// The value of a string of ASCII digits.
pub open spec fn digits_value(s: Seq<u8>) -> nat
    decreases s.len(),
{
    if s.len() == 0 {
        0
    } else {
        (digits_value(s.drop_last()) * 10 + (s.last() - 48)) as nat
    }
}

pub open spec fn all_digits(s: Seq<u8>) -> bool {
    forall|i: int| 0 <= i < s.len() ==> 48 <= #[trigger] s[i] <= 57
}

/// `n` ASCII zeros.
pub open spec fn zero_digits(n: nat) -> Seq<u8> {
    Seq::new(n, |i: int| 48u8)
}

/// `.seg`
pub open spec fn suffix() -> Seq<u8> {
    seq![46u8, 115u8, 101u8, 103u8]
}

/// At least sixteen digits, then the suffix.
pub open spec fn name_of(seq: u64) -> Seq<u8> {
    let d = decimal(seq as nat);
    let pad = if d.len() < 16 {
        (16 - d.len()) as nat
    } else {
        0
    };
    zero_digits(pad) + d + suffix()
}

/// The number that a stem of digits (with an optional plus sign) stands for.
pub open spec fn stem_value(s: Seq<u8>) -> Option<u64> {
    let d = if s.len() > 0 && s[0] == 43 {
        s.drop_first()
    } else {
        s
    };
    if d.len() > 0 && all_digits(d) && digits_value(d) <= u64::MAX {
        Some(digits_value(d) as u64)
    } else {
        None
    }
}

/// The sequence number behind a file name.
pub open spec fn seq_of_name(name: Seq<u8>) -> Option<u64> {
    if name.len() >= 4 && name.skip(name.len() - 4) == suffix() {
        stem_value(name.take(name.len() - 4))
    } else {
        None
    }
}

proof fn lemma_decimal(v: nat)
    ensures
        all_digits(decimal(v)),
        digits_value(decimal(v)) == v,
        decimal(v).len() >= 1,
    decreases v,
{
    if v >= 10 {
        lemma_decimal(v / 10);
        assert(decimal(v).drop_last() =~= decimal(v / 10));
    } else {
        assert(decimal(v).drop_last() =~= Seq::empty());
        assert(digits_value(decimal(v).drop_last()) == 0);
    }
}

proof fn lemma_leading_zeros(n: nat, d: Seq<u8>)
    requires
        all_digits(d),
    ensures
        all_digits(zero_digits(n) + d),
        digits_value(zero_digits(n) + d) == digits_value(d),
    decreases d.len() + n,
{
    let s = zero_digits(n) + d;
    if d.len() > 0 {
        assert(s.drop_last() =~= zero_digits(n) + d.drop_last());
        lemma_leading_zeros(n, d.drop_last());
    } else if n > 0 {
        let m = (n - 1) as nat;
        assert(s.drop_last() =~= zero_digits(m) + d);
        lemma_leading_zeros(m, d);
    } else {
        assert(s =~= d);
    }
}

/// The name of a segment gives its sequence number back.
pub proof fn segment_name_round_trip(seq: u64)
    ensures
        seq_of_name(name_of(seq)) == Some(seq),
{
    let d = decimal(seq as nat);
    lemma_decimal(seq as nat);
    let pad = if d.len() < 16 {
        (16 - d.len()) as nat
    } else {
        0
    };
    lemma_leading_zeros(pad, d);
    let stem = zero_digits(pad) + d;
    let name = name_of(seq);
    assert(name.take(name.len() - 4) =~= stem);
    assert(name.skip(name.len() - 4) =~= suffix());
    assert(48 <= stem[0] <= 57);
}

/// `String::from_utf8`: ASCII bytes are the characters with those codes.
#[verifier::external_body]
fn ascii_string(bytes: Vec<u8>) -> (r: String)
    requires
        forall|i: int| 0 <= i < bytes@.len() ==> #[trigger] bytes@[i] < 128,
    ensures
        r@ == Seq::new(bytes@.len(), |i: int| bytes@[i] as char),
{
    String::from_utf8(bytes).unwrap_or_default()
}

/// The bytes of the segment file name for a sequence number.
pub fn segment_name_bytes(seq: u64) -> (r: Vec<u8>)
    ensures
        r@ == name_of(seq),
        forall|i: int| 0 <= i < r@.len() ==> #[trigger] r@[i] < 128,
{
    // Digits, least significant first.
    let mut rev: Vec<u8> = Vec::new();
    let mut v: u64 = seq;
    let ghost d = decimal(seq as nat);
    proof {
        lemma_decimal(seq as nat);
    }
    loop
        invariant_except_break
            d.len() == decimal(v as nat).len() + rev@.len(),
            decimal(v as nat) == d.take(d.len() - rev@.len()),
        invariant
            d == decimal(seq as nat),
            forall|i: int| 0 <= i < rev@.len() ==> #[trigger] rev@[i] == d[d.len() - 1 - i],
        ensures
            rev@.len() == d.len(),
            forall|i: int| 0 <= i < rev@.len() ==> #[trigger] rev@[i] == d[d.len() - 1 - i],
        decreases v,
    {
        let ghost cur = decimal(v as nat);
        let digit: u8 = (48 + v % 10) as u8;
        proof {
            lemma_decimal(v as nat);
            assert(cur.last() == digit);
            assert(cur.last() == d[d.len() - rev@.len() - 1]);
        }
        rev.push(digit);
        if v < 10 {
            break;
        }
        proof {
            assert(cur.drop_last() =~= decimal(v as nat / 10));
            assert(cur.drop_last() =~= d.take(d.len() - rev@.len()));
        }
        v = v / 10;
    }
    let mut out: Vec<u8> = Vec::new();
    let n: usize = rev.len();
    let pad: usize = if n < 16 {
        16 - n
    } else {
        0
    };
    let mut i: usize = 0;
    while i < pad
        invariant
            i <= pad,
            out@ == zero_digits(i as nat),
        decreases pad - i,
    {
        out.push(48);
        assert(out@ =~= zero_digits((i + 1) as nat));
        i += 1;
    }
    let ghost zs = zero_digits(pad as nat);
    assert(zs + d.take(0) =~= zs);
    let mut k: usize = n;
    while k > 0
        invariant
            k <= n == rev@.len(),
            n == d.len(),
            forall|i: int| 0 <= i < n ==> #[trigger] rev@[i] == d[n - 1 - i],
            out@ == zs + d.take(n - k),
        decreases k,
    {
        k -= 1;
        out.push(rev[k]);
        assert(out@ =~= zs + d.take(n - k));
    }
    assert(d.take(n as int) =~= d);
    out.push(46);
    out.push(115);
    out.push(101);
    out.push(103);
    proof {
        assert(out@ =~= name_of(seq));
        lemma_decimal(seq as nat);
        lemma_leading_zeros(pad as nat, d);
        let stem = zs + d;
        assert forall|j: int| 0 <= j < out@.len() implies #[trigger] out@[j] < 128 by {
            if j < stem.len() {
                assert(out@[j] == stem[j]);
            }
        }
    }
    out
}

/// Segment file name for a sequence number.
pub fn segment_file_name(seq: u64) -> (r: String)
    ensures
        r@ == Seq::new(name_of(seq).len(), |i: int| name_of(seq)[i] as char),
{
    ascii_string(segment_name_bytes(seq))
}

/// The sequence number behind a file name; `None` where it names no segment.
pub fn parse_segment_name(name: &[u8]) -> (r: Option<u64>)
    ensures
        r == seq_of_name(name@),
{
    let n: usize = name.len();
    if n < 4 {
        return None;
    }
    let ghost tail = name@.skip(n - 4);
    if !(name[n - 4] == 46 && name[n - 3] == 115 && name[n - 2] == 101 && name[n - 1] == 103) {
        proof {
            assert(tail[0] == name@[n - 4] && tail[1] == name@[n - 3] && tail[2] == name@[n - 2]
                && tail[3] == name@[n - 1]);
        }
        return None;
    }
    assert(tail =~= suffix());
    let ghost stem = name@.take(n - 4);
    let from: usize = if n > 4 && name[0] == 43 {
        1
    } else {
        0
    };
    let ghost d = if stem.len() > 0 && stem[0] == 43 {
        stem.drop_first()
    } else {
        stem
    };
    assert(d =~= name@.subrange(from as int, n - 4));
    if from == n - 4 {
        return None;
    }
    let mut v: u64 = 0;
    let mut i: usize = from;
    while i < n - 4
        invariant
            from <= i <= n - 4,
            n == name@.len(),
            n >= 4,
            d == name@.subrange(from as int, n - 4),
            stem_value(stem) == if d.len() > 0 && all_digits(d) && digits_value(d) <= u64::MAX {
                Some(digits_value(d) as u64)
            } else {
                None
            },
            seq_of_name(name@) == stem_value(stem),
            all_digits(d.take(i - from)),
            v == digits_value(d.take(i - from)),
        decreases n - 4 - i,
    {
        let b: u8 = name[i];
        assert(d[i - from] == b);
        if b < 48 || b > 57 {
            return None;
        }
        proof {
            let next = d.take(i + 1 - from);
            assert(next.drop_last() =~= d.take(i - from));
            assert forall|j: int| 0 <= j < next.len() implies 48 <= #[trigger] next[j] <= 57 by {
                if j < i - from {
                    assert(next[j] == d.take(i - from)[j]);
                }
            }
            lemma_digits_grow(d, i + 1 - from);
        }
        let digit: u64 = (b - 48) as u64;
        v = match v.checked_mul(10) {
            None => return None,
            Some(t) => match t.checked_add(digit) {
                None => return None,
                Some(x) => x,
            },
        };
        i += 1;
    }
    assert(d.take(i - from) =~= d);
    Some(v)
}

/// More digits never make a smaller number.
proof fn lemma_digits_grow(d: Seq<u8>, n: int)
    requires
        0 <= n <= d.len(),
    ensures
        all_digits(d) ==> digits_value(d.take(n)) <= digits_value(d),
    decreases d.len(),
{
    if n < d.len() {
        if all_digits(d) {
            let p = d.drop_last();
            assert(p.take(n) =~= d.take(n));
            assert forall|i: int| 0 <= i < p.len() implies 48 <= #[trigger] p[i] <= 57 by {
                assert(p[i] == d[i]);
            }
            lemma_digits_grow(p, n);
            assert(48 <= d[d.len() - 1] <= 57);
        }
    } else {
        assert(d.take(n) =~= d);
    }
}

/// The numbers of those names that name segments, in the order of the names.
pub open spec fn parsed(names: Seq<Vec<u8>>) -> Seq<u64>
    decreases names.len(),
{
    if names.len() == 0 {
        Seq::empty()
    } else {
        let rest = parsed(names.drop_last());
        match seq_of_name(names.last()@) {
            Some(v) => rest.push(v),
            None => rest,
        }
    }
}

pub open spec fn ascending(s: Seq<u64>) -> bool {
    forall|i: int, j: int| 0 <= i < j < s.len() ==> s[i] <= s[j]
}

/// The segment sequence numbers among the names of a directory, ascending.
pub fn list_segments(names: &Vec<Vec<u8>>) -> (r: Vec<u64>)
    ensures
        ascending(r@),
        r@.to_multiset() == parsed(names@).to_multiset(),
{
    let mut out: Vec<u64> = Vec::new();
    let mut i: usize = 0;
    assert(names@.take(0) =~= Seq::empty());
    while i < names.len()
        invariant
            i <= names@.len(),
            ascending(out@),
            out@.to_multiset() == parsed(names@.take(i as int)).to_multiset(),
        decreases names@.len() - i,
    {
        assert(names@.take(i + 1).drop_last() =~= names@.take(i as int));
        if let Some(v) = parse_segment_name(&names[i]) {
            let mut at: usize = 0;
            while at < out.len() && out[at] <= v
                invariant
                    at <= out@.len(),
                    forall|j: int| 0 <= j < at ==> out@[j] <= v,
                decreases out@.len() - at,
            {
                at += 1;
            }
            let ghost had = out@;
            let ghost sofar = parsed(names@.take(i as int));
            proof {
                broadcast use vstd::seq_lib::group_to_multiset_ensures;
                vstd::seq_lib::to_multiset_insert(had, at as int, v);
                vstd::seq_lib::to_multiset_build(sofar, v);
            }
            out.insert(at, v);
        }
        i += 1;
    }
    assert(names@.take(i as int) =~= names@);
    out
}

// ---------------------------------------------------------------------------
// Scanning
// ---------------------------------------------------------------------------

/// A fully owned record from a segment scan.
pub struct ScanRecord {
    /// Record tag.
    pub tag: RecordTag,
    /// Flags.
    pub flags: u16,
    /// Stored payload length.
    pub stored_len: u32,
    /// Materialized length.
    pub materialized_len: Option<u64>,
    /// Content id.
    pub content_id: ChunkId,
    /// Payload bytes.
    pub payload: Vec<u8>,
    /// Record start offset within the segment.
    pub offset: u64,
}

impl View for ScanRecord {
    type V = (RecordView, nat);

    open spec fn view(&self) -> (RecordView, nat) {
        (
            RecordView {
                tag: self.tag,
                flags: self.flags,
                materialized_len: self.materialized_len,
                content_id: self.content_id@,
                payload: self.payload@,
            },
            self.offset as nat,
        )
    }
}

impl ScanRecord {
    /// Total on-disk size.
    pub fn total_size(&self) -> (r: u64)
        ensures
            r == HEADER_SIZE + self.stored_len,
    {
        HEADER_SIZE + self.stored_len as u64
    }
}

pub open spec fn record_views(rs: Seq<ScanRecord>) -> Seq<(RecordView, nat)> {
    Seq::new(rs.len(), |i: int| rs[i]@)
}

/// Why a scan stops with an error.
pub enum ScanFault {
    /// The magic is wrong.
    Malformed,
    /// More records than the limit, or a record that does not validate.
    Corrupt,
}

pub open spec fn magic_bytes() -> Seq<u8> {
    u32_bytes(SEGMENT_MAGIC)
}

pub open spec fn has_magic(s: Seq<u8>) -> bool {
    s.len() >= 4 && s.take(4) == magic_bytes()
}

/// The records from `at` on, behind those found before, and where the scan
/// ends: at the end of the input, at zero padding, or at a torn record.
pub open spec fn scan_from(
    bytes: Seq<u8>,
    at: nat,
    found: Seq<(RecordView, nat)>,
    limit: nat,
) -> Result<(Seq<(RecordView, nat)>, nat), ScanFault>
    decreases bytes.len() - at,
{
    if at >= bytes.len() {
        Ok((found, at))
    } else if found.len() >= limit {
        Err(ScanFault::Corrupt)
    } else {
        match parse_record(bytes.skip(at as int)) {
            Ok(Some(v)) => {
                proof {
                    crate::record::lemma_parse_local(
                        bytes.skip(at as int),
                        bytes.skip(at as int).len(),
                    );
                }
                scan_from(bytes, at + record_size(v), found.push((v, at)), limit)
            },
            Ok(None) => Ok((found, at)),
            Err(CodecError::Truncated) => Ok((found, at)),
            Err(_) => Err(ScanFault::Corrupt),
        }
    }
}

/// A whole segment.
pub open spec fn scan_of(bytes: Seq<u8>, limit: nat) -> Result<
    (Seq<(RecordView, nat)>, nat),
    ScanFault,
> {
    if bytes.len() < 4 {
        Ok((Seq::empty(), bytes.len()))
    } else if !has_magic(bytes) {
        Err(ScanFault::Malformed)
    } else {
        scan_from(bytes, 4, Seq::empty(), limit)
    }
}

/// Whether the segment starts with the magic.
pub fn check_magic(bytes: &[u8]) -> (r: bool)
    ensures
        r == has_magic(bytes@),
{
    if bytes.len() < 4 {
        return false;
    }
    let mut c = Cursor::new(bytes);
    let v: u32 = c.u32();
    proof {
        lemma_scan_u32(SEGMENT_MAGIC, bytes@.skip(4));
        assert(bytes@ =~= bytes@.take(4) + bytes@.skip(4));
        crate::codec::lemma_unscan_u32(bytes@);
        assert(bytes@.take(4) =~= u32_bytes(v));
        if u32_bytes(v) == magic_bytes() {
            lemma_scan_u32(v, Seq::empty());
            lemma_scan_u32(SEGMENT_MAGIC, Seq::empty());
        }
    }
    v == SEGMENT_MAGIC
}

/// Scan a segment sequentially, validating every record envelope.
///
/// Returns owned records plus the first offset at which validation stops (the
/// torn tail). `limit_records` bounds the scan.
pub fn scan_segment(bytes: &[u8], limit_records: u64) -> (r: Result<
    (Vec<ScanRecord>, u64),
    SegmentError,
>)
    ensures
        match r {
            Ok(o) => scan_of(bytes@, limit_records as nat) == Ok::<
                (Seq<(RecordView, nat)>, nat),
                ScanFault,
            >((record_views(o.0@), o.1 as nat)) && o.1 <= bytes@.len() && forall|i: int|
                0 <= i < o.0@.len() ==> (#[trigger] o.0@[i]).stored_len == o.0@[i].payload@.len()
                    && o.0@[i].offset + HEADER_SIZE + o.0@[i].stored_len <= o.1,
            Err(e) => match scan_of(bytes@, limit_records as nat) {
                Err(ScanFault::Malformed) => e is Malformed,
                Err(ScanFault::Corrupt) => e is CorruptRecord,
                Ok(_) => false,
            },
        },
{
    let mut records: Vec<ScanRecord> = Vec::new();
    assert(record_views(records@) =~= Seq::empty());
    if bytes.len() < 4 {
        return Ok((records, bytes.len() as u64));
    }
    if !check_magic(bytes) {
        return Err(SegmentError::Malformed);
    }
    let total: u64 = bytes.len() as u64;
    let mut offset: u64 = 4;
    while offset < total
        invariant
            total == bytes@.len(),
            4 <= offset <= total,
            has_magic(bytes@),
            scan_of(bytes@, limit_records as nat) == scan_from(
                bytes@,
                offset as nat,
                record_views(records@),
                limit_records as nat,
            ),
            forall|i: int|
                0 <= i < records@.len() ==> (#[trigger] records@[i]).stored_len
                    == records@[i].payload@.len() && records@[i].offset + HEADER_SIZE
                    + records@[i].stored_len <= offset,
        decreases total - offset,
    {
        if records.len() as u64 >= limit_records {
            return Err(SegmentError::CorruptRecord("record limit exceeded".to_string()));
        }
        match record::decode(bytes, offset) {
            Ok(Some(rec)) => {
                let size: u64 = HEADER_SIZE + rec.stored_len as u64;
                let ghost had = record_views(records@);
                records.push(
                    ScanRecord {
                        tag: rec.tag,
                        flags: rec.flags,
                        stored_len: rec.stored_len,
                        materialized_len: rec.materialized_len,
                        content_id: rec.content_id,
                        payload: rec.payload,
                        offset: rec.offset,
                    },
                );
                assert(record_views(records@) =~= had.push((rec@, offset as nat)));
                offset = offset + size;
            },
            Ok(None) => {
                return Ok((records, offset));
            },
            Err(CodecError::Truncated) => {
                return Ok((records, offset));
            },
            Err(e) => {
                return Err(SegmentError::CorruptRecord(e.describe()));
            },
        }
    }
    Ok((records, offset))
}

/// The bytes of a run of records.
pub open spec fn records_bytes(rs: Seq<RecordView>) -> Seq<u8>
    decreases rs.len(),
{
    if rs.len() == 0 {
        Seq::empty()
    } else {
        record_bytes(rs[0]) + records_bytes(rs.drop_first())
    }
}

/// Records with their offsets, the first at `at`.
pub open spec fn placed(rs: Seq<RecordView>, at: nat) -> Seq<(RecordView, nat)>
    decreases rs.len(),
{
    if rs.len() == 0 {
        Seq::empty()
    } else {
        seq![(rs[0], at)] + placed(rs.drop_first(), at + record_size(rs[0]))
    }
}

/// One more record.
pub proof fn lemma_records_push(rs: Seq<RecordView>, v: RecordView)
    ensures
        records_bytes(rs.push(v)) == records_bytes(rs) + record_bytes(v),
    decreases rs.len(),
{
    let all = rs.push(v);
    if rs.len() == 0 {
        assert(all.drop_first() =~= Seq::empty());
        assert(records_bytes(all) =~= record_bytes(v) + records_bytes(Seq::empty()));
        assert(record_bytes(v) + Seq::<u8>::empty() =~= record_bytes(v));
        assert(records_bytes(rs) + record_bytes(v) =~= record_bytes(v));
    } else {
        let rest = rs.drop_first();
        assert(all.drop_first() =~= rest.push(v));
        lemma_records_push(rest, v);
        assert(record_bytes(rs[0]) + (records_bytes(rest) + record_bytes(v)) =~= record_bytes(rs[0])
            + records_bytes(rest) + record_bytes(v));
    }
}

/// A segment of whole records is clean to its end.
pub proof fn lemma_clean_written(head: Seq<u8>, rs: Seq<RecordView>)
    requires
        forall|i: int| 0 <= i < rs.len() ==> record_ok(#[trigger] rs[i]),
    ensures
        crate::io::clean_from(head + records_bytes(rs), head.len()) == (head + records_bytes(
            rs,
        )).len(),
    decreases rs.len(),
{
    let whole = head + records_bytes(rs);
    if rs.len() > 0 {
        let v = rs[0];
        let rest = rs.drop_first();
        record_round_trip(v, records_bytes(rest));
        assert(whole.skip(head.len() as int) =~= record_bytes(v) + records_bytes(rest));
        assert forall|i: int| 0 <= i < rest.len() implies record_ok(#[trigger] rest[i]) by {
            assert(rest[i] == rs[i + 1]);
        }
        let head2 = head + record_bytes(v);
        assert(whole =~= head2 + records_bytes(rest));
        lemma_clean_written(head2, rest);
    }
}

proof fn lemma_scan_written(
    head: Seq<u8>,
    rs: Seq<RecordView>,
    found: Seq<(RecordView, nat)>,
    limit: nat,
)
    requires
        forall|i: int| 0 <= i < rs.len() ==> record_ok(#[trigger] rs[i]),
        found.len() + rs.len() <= limit,
    ensures
        scan_from(head + records_bytes(rs), head.len(), found, limit) == Ok::<
            (Seq<(RecordView, nat)>, nat),
            ScanFault,
        >((found + placed(rs, head.len()), (head + records_bytes(rs)).len())),
    decreases rs.len(),
{
    let whole = head + records_bytes(rs);
    if rs.len() == 0 {
        assert(found + placed(rs, head.len()) =~= found);
    } else {
        let v = rs[0];
        let rest = rs.drop_first();
        record_round_trip(v, records_bytes(rest));
        assert(whole.skip(head.len() as int) =~= record_bytes(v) + records_bytes(rest));
        assert forall|i: int| 0 <= i < rest.len() implies record_ok(#[trigger] rest[i]) by {
            assert(rest[i] == rs[i + 1]);
        }
        let head2 = head + record_bytes(v);
        assert(whole =~= head2 + records_bytes(rest));
        lemma_scan_written(head2, rest, found.push((v, head.len())), limit);
        assert(found.push((v, head.len())) + placed(rest, head2.len()) =~= found + placed(
            rs,
            head.len(),
        ));
    }
}

/// Scanning a segment gives back the records that were appended to it, each at
/// its offset.
pub proof fn segment_round_trip(rs: Seq<RecordView>, limit: nat)
    requires
        forall|i: int| 0 <= i < rs.len() ==> record_ok(#[trigger] rs[i]),
        rs.len() <= limit,
    ensures
        scan_of(magic_bytes() + records_bytes(rs), limit) == Ok::<
            (Seq<(RecordView, nat)>, nat),
            ScanFault,
        >((placed(rs, 4), (magic_bytes() + records_bytes(rs)).len())),
{
    lemma_scan_u32(SEGMENT_MAGIC, Seq::empty());
    let whole = magic_bytes() + records_bytes(rs);
    assert(whole.take(4) =~= magic_bytes());
    lemma_scan_written(magic_bytes(), rs, Seq::empty(), limit);
    assert(Seq::<(RecordView, nat)>::empty() + placed(rs, 4) =~= placed(rs, 4));
}

// ---------------------------------------------------------------------------
// Root recovery
// ---------------------------------------------------------------------------

/// The newest of the root records among `rs`, behind `best`: a later one
/// replaces an earlier one only where its generation is higher.
pub open spec fn newest_root_in(
    rs: Seq<(RecordView, nat)>,
    best: Option<RootView>,
) -> Option<RootView>
    decreases rs.len(),
{
    if rs.len() == 0 {
        best
    } else {
        let prior = newest_root_in(rs.drop_last(), best);
        let v = rs.last().0;
        if v.tag == RecordTag::Root && parse_root(v.payload) is Ok {
            let r = parse_root(v.payload)->Ok_0;
            match prior {
                None => Some(r),
                Some(p) => if r.generation > p.generation {
                    Some(r)
                } else {
                    prior
                },
            }
        } else {
            prior
        }
    }
}

/// The superblock that stands for a root found in the segments; the feature
/// bits are set again by later commits.
pub open spec fn superblock_for(r: RootView) -> SuperblockView {
    SuperblockView {
        uuid: r.uuid,
        generation: r.generation,
        root_object_id: crate::chunk::digest(root_bytes(r)),
        segment_seq: r.segment_seq,
        incompat: 0,
    }
}

/// The superblock and root pair for recovery.
pub open spec fn recovered(o: Option<(Superblock, Root)>, best: Option<RootView>) -> bool {
    match (o, best) {
        (None, None) => true,
        (Some((sb, root)), Some(r)) => root@ == r && sb@ == superblock_for(r),
        _ => false,
    }
}

/// Recovery fallback over one scanned segment: the newest valid root record,
/// with the superblock that stands for it, behind what earlier segments gave.
pub fn newest_root(records: &Vec<ScanRecord>, best: Option<(Superblock, Root)>) -> (r: Option<
    (Superblock, Root),
>)
    ensures
        forall|b: Option<RootView>| #[trigger]
            recovered(best, b) ==> recovered(r, newest_root_in(record_views(records@), b)),
{
    let mut cur = best;
    let ghost rs = record_views(records@);
    let mut i: usize = 0;
    assert(rs.take(0) =~= Seq::empty());
    while i < records.len()
        invariant
            i <= records@.len(),
            rs == record_views(records@),
            forall|b: Option<RootView>| #[trigger]
                recovered(best, b) ==> recovered(cur, newest_root_in(rs.take(i as int), b)),
        decreases records@.len() - i,
    {
        let rec = &records[i];
        let ghost was = cur;
        proof {
            assert(rs.take(i + 1).drop_last() =~= rs.take(i as int));
            assert(rs.take(i + 1).last() == rec@);
        }
        if rec.tag == RecordTag::Root {
            if let Ok(root) = Root::decode(&rec.payload) {
                let replace = match &cur {
                    None => true,
                    Some((b, _)) => root.generation > b.generation,
                };
                if replace {
                    let sb = Superblock {
                        uuid: root.uuid,
                        generation: root.generation,
                        root_object_id: root.id(),
                        segment_seq: root.segment_seq,
                        incompat: 0,
                    };
                    cur = Some((sb, root));
                }
            }
        }
        proof {
            assert forall|b: Option<RootView>| #[trigger] recovered(best, b) implies recovered(
                cur,
                newest_root_in(rs.take(i + 1), b),
            ) by {
                let prior = newest_root_in(rs.take(i as int), b);
                assert(recovered(was, prior));
            }
        }
        i += 1;
    }
    assert(rs.take(i as int) =~= rs);
    cur
}

/// The newest root over all segments, in order.
pub open spec fn newest_root_over(
    segments: Seq<Vec<u8>>,
    limit: nat,
) -> Result<Option<RootView>, ScanFault>
    decreases segments.len(),
{
    if segments.len() == 0 {
        Ok(None)
    } else {
        match newest_root_over(segments.drop_last(), limit) {
            Err(e) => Err(e),
            Ok(best) => match scan_of(segments.last()@, limit) {
                Err(e) => Err(e),
                Ok((rs, _)) => Ok(newest_root_in(rs, best)),
            },
        }
    }
}

proof fn lemma_over_stuck(segments: Seq<Vec<u8>>, limit: nat, n: int)
    requires
        0 <= n <= segments.len(),
        newest_root_over(segments.take(n), limit) is Err,
    ensures
        newest_root_over(segments, limit) == newest_root_over(segments.take(n), limit),
    decreases segments.len() - n,
{
    if n < segments.len() {
        assert(segments.take(n + 1).drop_last() =~= segments.take(n));
        lemma_over_stuck(segments, limit, n + 1);
    } else {
        assert(segments.take(n) =~= segments);
    }
}

/// Recovery fallback: the newest valid root record across all segments, with
/// the superblock reconstructed for it.
pub fn scan_newest_root(segments: &Vec<Vec<u8>>, max_records_per_segment: u64) -> (r: Result<
    Option<(Superblock, Root)>,
    SegmentError,
>)
    ensures
        match r {
            Ok(o) => newest_root_over(segments@, max_records_per_segment as nat) matches Ok(b)
                && recovered(o, b),
            Err(e) => newest_root_over(segments@, max_records_per_segment as nat) is Err,
        },
{
    let ghost limit = max_records_per_segment as nat;
    let mut best: Option<(Superblock, Root)> = None;
    let mut i: usize = 0;
    assert(segments@.take(0) =~= Seq::empty());
    while i < segments.len()
        invariant
            i <= segments@.len(),
            limit == max_records_per_segment as nat,
            newest_root_over(segments@.take(i as int), limit) is Ok,
            recovered(best, newest_root_over(segments@.take(i as int), limit)->Ok_0),
        decreases segments@.len() - i,
    {
        let bytes = &segments[i];
        proof {
            assert(segments@.take(i + 1).drop_last() =~= segments@.take(i as int));
            assert(segments@.take(i + 1).last() == segments@[i as int]);
        }
        match scan_segment(bytes, max_records_per_segment) {
            Err(e) => {
                proof {
                    lemma_over_stuck(segments@, limit, i + 1);
                }
                return Err(e);
            },
            Ok((records, _)) => {
                best = newest_root(&records, best);
            },
        }
        i += 1;
    }
    assert(segments@.take(i as int) =~= segments@);
    Ok(best)
}

// ---------------------------------------------------------------------------
// Writer
// ---------------------------------------------------------------------------

/// The current segment: appends records, tracks the write position, and flushes
/// on commit. The file operations go through the storage backend.
pub struct SegmentWriter {
    seq: u64,
    /// Buffered bytes not yet written to the file.
    buffer: Vec<u8>,
    /// The end of the written part of the file.
    end: u64,
    /// Records appended in this writer's lifetime.
    record_count: u64,
}

impl SegmentWriter {
    pub closed spec fn seq_of(&self) -> u64 {
        self.seq
    }

    /// The buffered bytes.
    pub closed spec fn buffered(&self) -> Seq<u8> {
        self.buffer@
    }

    /// Where the next flush writes.
    pub closed spec fn end_of(&self) -> u64 {
        self.end
    }

    /// Records appended so far.
    pub closed spec fn count_of(&self) -> u64 {
        self.record_count
    }

    /// Open (create if needed) the segment file for appending. A torn tail is
    /// truncated, so new appends never follow garbage.
    pub fn open<B: IoBackend>(io: &mut B, seq: u64) -> (r: Result<SegmentWriter, SegmentError>)
        ensures
            match r {
                Ok(w) => {
                    &&& crate::io::opened(
                        file_of(old(io).segments(), seq),
                        file_of(final(io).segments(), seq),
                        w.end_of() as nat,
                    )
                    &&& w.seq_of() == seq
                    &&& w.buffered() == Seq::<u8>::empty()
                    &&& w.count_of() == 0
                    &&& w.end_of() >= 4
                },
                Err(e) => (e is Io || e is Malformed) && (old(io).reliable() ==> e is Malformed && file_of(
                    old(io).segments(),
                    seq,
                ).len() > 0 && !has_magic(file_of(old(io).segments(), seq))),
            },
            crate::io::same_but(old(io).segments(), final(io).segments(), seq),
            final(io).superblock() == old(io).superblock(),
            final(io).reliable() == old(io).reliable(),
            crate::io::same_but(old(io).synced().segments, final(io).synced().segments, seq),
            final(io).synced() == (crate::io::Synced {
                segments: final(io).synced().segments,
                ..old(io).synced()
            }),
    {
        let opened = crate::io::open_segment_common(io, seq);
        SegmentWriter::opened(seq, opened)
    }

    /// The writer of a segment that the transport has opened up to an end, or the
    /// transport's error.
    pub fn opened(seq: u64, opened: Result<u64, StoreError>) -> (r: Result<
        SegmentWriter,
        SegmentError,
    >)
        ensures
            match opened {
                Ok(end) => r matches Ok(w) && w.seq_of() == seq && w.buffered() == Seq::<u8>::empty()
                    && w.count_of() == 0 && w.end_of() == if end < 4 {
                    4
                } else {
                    end
                },
                Err(StoreError::Segment(e)) => r == Err::<SegmentWriter, SegmentError>(e),
                Err(e) => r matches Err(SegmentError::Io(m)) && m@ == e.text(),
            },
    {
        match opened {
            Ok(end) => {
                let end: u64 = if end < 4 {
                    4
                } else {
                    end
                };
                let w = SegmentWriter { seq, buffer: Vec::new(), end, record_count: 0 };
                assert(w.buffered() =~= Seq::empty());
                Ok(w)
            },
            Err(e) => Err(SegmentError::of(e)),
        }
    }

    /// Sequence number.
    pub fn seq(&self) -> (r: u64)
        ensures
            r == self.seq_of(),
    {
        self.seq
    }

    /// Append an encoded record to the buffer.
    pub fn append(&mut self, bytes: Vec<u8>)
        ensures
            final(self).buffered() == old(self).buffered() + bytes@,
            final(self).count_of() == if old(self).count_of() == u64::MAX {
                u64::MAX
            } else {
                (old(self).count_of() + 1) as u64
            },
            final(self).seq_of() == old(self).seq_of(),
            final(self).end_of() == old(self).end_of(),
    {
        append_bytes(&mut self.buffer, &bytes);
        self.record_count = self.record_count.saturating_add(1);
    }

    /// Number of buffered bytes.
    pub fn buffered_len(&self) -> (r: u64)
        ensures
            r == self.buffered().len(),
    {
        self.buffer.len() as u64
    }

    /// Flush buffered bytes to the file (not yet durable): one offset-based
    /// write at the end, and no other call; none where nothing is buffered. The buffer is
    /// given up even where the write fails.
    pub fn flush<B: IoBackend>(&mut self, io: &mut B) -> (r: Result<(), SegmentError>)
        requires
            old(self).end_of() + old(self).buffered().len() <= u64::MAX,
        ensures
            final(self).seq_of() == old(self).seq_of(),
            final(self).count_of() == old(self).count_of(),
            final(self).buffered() == Seq::<u8>::empty(),
            old(self).buffered().len() == 0 ==> r is Ok && *final(io) == *old(io),
            old(self).buffered().len() > 0 ==> final(io).calls() == crate::io::one_call_more(
                old(io).calls(),
            ),
            match r {
                Ok(_) => {
                    &&& final(self).end_of() == old(self).end_of() + old(self).buffered().len()
                    &&& old(self).buffered().len() > 0 ==> final(io).segments() == old(io).segments().insert(
                        old(self).seq_of(),
                        written(
                            file_of(old(io).segments(), old(self).seq_of()),
                            old(self).end_of() as nat,
                            old(self).buffered(),
                        ),
                    )
                    &&& old(self).buffered().len() == 0 ==> final(io).segments() == old(io).segments()
                },
                Err(e) => e is Io && final(self).end_of() == old(self).end_of() && !old(io).reliable(),
            },
            final(io).reliable() == old(io).reliable(),
            crate::io::same_but(old(io).segments(), final(io).segments(), old(self).seq_of()),
            final(io).superblock() == old(io).superblock(),
            final(io).synced() == old(io).synced(),
    {
        if self.buffer.len() == 0 {
            assert(self.buffer@ =~= Seq::empty());
            return Ok(());
        }
        let n: u64 = self.buffer.len() as u64;
        let out = io.write_at(self.seq, self.end, &self.buffer);
        self.buffer.clear();
        match out {
            Ok(_) => {
                self.end = self.end + n;
                assert(old(io).segments().remove(old(self).seq_of()) =~= io.segments().remove(
                    old(self).seq_of(),
                ));
                Ok(())
            },
            Err(e) => Err(SegmentError::of(e)),
        }
    }

    /// Make all flushed data durable.
    pub fn fdatasync<B: IoBackend>(&self, io: &mut B) -> (r: Result<(), SegmentError>)
        ensures
            r matches Err(e) ==> e is Io && !old(io).reliable(),
            final(io).reliable() == old(io).reliable(),
            final(io).segments() == old(io).segments(),
            final(io).superblock() == old(io).superblock(),
            crate::io::segment_synced(
                old(io).synced(),
                final(io).synced(),
                old(io).segments(),
                self.seq_of(),
                r is Ok,
            ),
            final(io).calls() == crate::io::one_call_more(old(io).calls()),
    {
        match io.fdatasync_segment(self.seq) {
            Ok(_) => Ok(()),
            Err(e) => Err(SegmentError::of(e)),
        }
    }

    /// Current end offset.
    pub fn durable_end(&self) -> (r: u64)
        ensures
            r == self.end_of(),
    {
        self.end
    }
}

} // verus!
