//! The storage transport seam: the segment and superblock file operations that
//! a backend performs, and what the store decides over them.

use vstd::prelude::*;

use crate::codec::Writer;
use crate::error::{SegmentError, StoreError};
use crate::record::{self, parse_record, record_size, HEADER_SIZE};
use crate::segment::{check_magic, has_magic, magic_bytes};
use crate::version::SEGMENT_MAGIC;

verus! {

/// Which transport the store uses.
#[derive(Debug, Clone, Copy, PartialEq, Eq, Structural)]
pub enum IoBackendKind {
    /// The reference synchronous engine. Default.
    Sync,
    /// The io_uring engine.
    Uring,
}

impl IoBackendKind {
    /// Canonical name.
    pub open spec fn name_of(self) -> Seq<char> {
        match self {
            IoBackendKind::Sync => "sync"@,
            IoBackendKind::Uring => "uring"@,
        }
    }

    /// Parse a command-line value (`sync` or `uring`).
    pub fn parse(s: &str) -> (r: Result<IoBackendKind, String>)
        ensures
            match r {
                Ok(k) => s@ == k.name_of(),
                Err(_) => s@ != "sync"@ && s@ != "uring"@,
            },
    {
        let given = s.to_string();
        if given == "sync".to_string() {
            Ok(IoBackendKind::Sync)
        } else if given == "uring".to_string() {
            Ok(IoBackendKind::Uring)
        } else {
            Err("unknown --io-backend (expected sync | uring)".to_string())
        }
    }

    /// Canonical name.
    pub fn name(self) -> (r: &'static str)
        ensures
            r@ == self.name_of(),
    {
        match self {
            IoBackendKind::Sync => "sync",
            IoBackendKind::Uring => "uring",
        }
    }
}

/// One payload read request: the record payload at `(segment_seq, offset)` with
/// `stored_len` bytes.
#[derive(Debug, Clone, Copy, PartialEq, Eq, Structural)]
pub struct ReadRequest {
    /// Segment sequence number.
    pub segment_seq: u64,
    /// Record start offset within the segment.
    pub offset: u64,
    /// Stored payload length.
    pub stored_len: u64,
}

/// The contents of a segment file; empty where there is none.
pub open spec fn file_of(segments: Map<u64, Seq<u8>>, seq: u64) -> Seq<u8> {
    if segments.dom().contains(seq) {
        segments[seq]
    } else {
        Seq::empty()
    }
}

/// A file after a write at `offset`; a gap reads as zeros.
pub open spec fn written(file: Seq<u8>, offset: nat, bytes: Seq<u8>) -> Seq<u8> {
    let end = offset + bytes.len();
    let len = if end > file.len() {
        end
    } else {
        file.len()
    };
    Seq::new(
        len,
        |i: int|
            if offset <= i < end {
                bytes[i - offset]
            } else if i < file.len() {
                file[i]
            } else {
                0u8
            },
    )
}

/// No file but that of `seq` differs.
pub open spec fn same_but(a: Map<u64, Seq<u8>>, b: Map<u64, Seq<u8>>, seq: u64) -> bool {
    a.remove(seq) == b.remove(seq)
}

/// A write at the end of a file appends to it.
pub proof fn write_at_end_appends(file: Seq<u8>, bytes: Seq<u8>)
    ensures
        written(file, file.len(), bytes) == file + bytes,
{
    assert(written(file, file.len(), bytes) =~= file + bytes);
}

/// The payload of the record at `offset`, where the file holds it whole.
pub open spec fn payload_in(file: Seq<u8>, offset: nat, stored_len: nat) -> Option<Seq<u8>> {
    if offset + HEADER_SIZE + stored_len <= file.len() {
        Some(
            file.subrange(
                (offset + HEADER_SIZE) as int,
                (offset + HEADER_SIZE + stored_len) as int,
            ),
        )
    } else {
        None
    }
}

pub open spec fn one_call_more(n: Option<nat>) -> Option<nat> {
    match n {
        Some(n) => Some(n + 1),
        None => None,
    }
}

/// What a transport has made durable: it is there after a loss of power.
#[verifier::ext_equal]
pub struct Synced {
    /// The segment files, each as it was when it was last synced.
    pub segments: Map<u64, Seq<u8>>,
    /// The directory entries of segment files.
    pub names: Set<u64>,
    /// The superblock file.
    pub superblock: Seq<u8>,
}

/// What a sync of one segment file leaves: the file as it is where the sync succeeded; it
/// is left open where not. Nothing else is made durable.
pub open spec fn segment_synced(
    a: Synced,
    b: Synced,
    segments: Map<u64, Seq<u8>>,
    seq: u64,
    done: bool,
) -> bool {
    if done {
        b == (Synced { segments: a.segments.insert(seq, file_of(segments, seq)), ..a })
    } else {
        same_but(a.segments, b.segments, seq) && b == (Synced { segments: b.segments, ..a })
    }
}

/// The storage transport. Every method has the same semantics in every backend;
/// the difference is only how the operations are issued. A call completes its
/// work before it returns; where it fails, what it was to write is left open.
///
/// A backend in verified code says by the first spec functions what it models. Their
/// bodies here say nothing of it, some function of the backend: they let a backend in
/// ordinary Rust leave them out.
pub trait IoBackend {
    /// The contents of the segment files.
    open spec fn segments(&self) -> Map<u64, Seq<u8>> {
        arbitrary::<spec_fn(&Self) -> Map<u64, Seq<u8>>>()(self)
    }

    /// The contents of the superblock file.
    open spec fn superblock(&self) -> Seq<u8> {
        arbitrary::<spec_fn(&Self) -> Seq<u8>>()(self)
    }

    /// What was made durable.
    open spec fn synced(&self) -> Synced {
        arbitrary::<spec_fn(&Self) -> Synced>()(self)
    }

    /// Operations do not fail.
    open spec fn reliable(&self) -> bool {
        false
    }

    /// How many of the operations below that take `&mut self` were called, where the
    /// backend counts them.
    open spec fn calls(&self) -> Option<nat> {
        None
    }

    /// Backend kind.
    fn kind(&self) -> IoBackendKind;

    /// Current length of the segment file (0 when absent).
    fn segment_len(&self, seq: u64) -> (r: Result<u64, StoreError>)
        ensures
            match r {
                Ok(n) => n == file_of(self.segments(), seq).len(),
                Err(e) => e is Io && !self.reliable(),
            },
    ;

    /// Read the whole segment file. Empty when absent.
    fn read_segment_file(&self, seq: u64) -> (r: Result<Vec<u8>, StoreError>)
        ensures
            match r {
                Ok(b) => b@ == file_of(self.segments(), seq),
                Err(e) => e is Io && !self.reliable(),
            },
    ;

    /// Write bytes at an absolute offset.
    fn write_at(&mut self, seq: u64, offset: u64, bytes: &[u8]) -> (r: Result<(), StoreError>)
        ensures
            match r {
                Ok(_) => final(self).segments() == old(self).segments().insert(
                    seq,
                    written(file_of(old(self).segments(), seq), offset as nat, bytes@),
                ),
                Err(e) => e is Io && !old(self).reliable() && same_but(
                    old(self).segments(),
                    final(self).segments(),
                    seq,
                ),
            },
            final(self).superblock() == old(self).superblock(),
            final(self).reliable() == old(self).reliable(),
            final(self).synced() == old(self).synced(),
            final(self).calls() == one_call_more(old(self).calls()),
    ;

    /// Truncate the segment file.
    fn truncate_segment(&mut self, seq: u64, len: u64) -> (r: Result<(), StoreError>)
        requires
            len <= file_of(old(self).segments(), seq).len(),
        ensures
            match r {
                Ok(_) => final(self).segments() == old(self).segments().insert(
                    seq,
                    file_of(old(self).segments(), seq).take(len as int),
                ),
                Err(e) => e is Io && !old(self).reliable() && same_but(
                    old(self).segments(),
                    final(self).segments(),
                    seq,
                ),
            },
            final(self).superblock() == old(self).superblock(),
            final(self).reliable() == old(self).reliable(),
            final(self).synced() == old(self).synced(),
            final(self).calls() == one_call_more(old(self).calls()),
    ;

    /// Full fsync of the segment file.
    fn sync_segment_file(&mut self, seq: u64) -> (r: Result<(), StoreError>)
        ensures
            r matches Err(e) ==> e is Io && !old(self).reliable(),
            final(self).segments() == old(self).segments(),
            final(self).superblock() == old(self).superblock(),
            final(self).reliable() == old(self).reliable(),
            segment_synced(
                old(self).synced(),
                final(self).synced(),
                old(self).segments(),
                seq,
                r is Ok,
            ),
            final(self).calls() == one_call_more(old(self).calls()),
    ;

    /// fdatasync of the segment file.
    fn fdatasync_segment(&mut self, seq: u64) -> (r: Result<(), StoreError>)
        ensures
            r matches Err(e) ==> e is Io && !old(self).reliable(),
            final(self).segments() == old(self).segments(),
            final(self).superblock() == old(self).superblock(),
            final(self).reliable() == old(self).reliable(),
            segment_synced(
                old(self).synced(),
                final(self).synced(),
                old(self).segments(),
                seq,
                r is Ok,
            ),
            final(self).calls() == one_call_more(old(self).calls()),
    ;

    /// fsync of the segments directory.
    fn sync_segments_dir(&mut self) -> (r: Result<(), StoreError>)
        ensures
            r matches Err(e) ==> e is Io && !old(self).reliable(),
            final(self).segments() == old(self).segments(),
            final(self).superblock() == old(self).superblock(),
            final(self).reliable() == old(self).reliable(),
            final(self).synced() == (Synced {
                names: final(self).synced().names,
                ..old(self).synced()
            }),
            r is Ok ==> final(self).synced().names == old(self).segments().dom(),
            final(self).calls() == one_call_more(old(self).calls()),
    ;

    /// Delete a segment file; a missing file is no error.
    fn delete_segment(&mut self, seq: u64) -> (r: Result<(), StoreError>)
        ensures
            match r {
                Ok(_) => final(self).segments() == old(self).segments().remove(seq),
                Err(e) => e is Io && !old(self).reliable() && same_but(
                    old(self).segments(),
                    final(self).segments(),
                    seq,
                ),
            },
            final(self).superblock() == old(self).superblock(),
            final(self).reliable() == old(self).reliable(),
            final(self).synced() == old(self).synced(),
            final(self).calls() == one_call_more(old(self).calls()),
    ;

    /// Read one record payload.
    fn read_payload(&self, seq: u64, offset: u64, stored_len: u64) -> (r: Result<
        Vec<u8>,
        StoreError,
    >)
        ensures
            match r {
                Ok(b) => payload_in(
                    file_of(self.segments(), seq),
                    offset as nat,
                    stored_len as nat,
                ) == Some(b@),
                Err(e) => (e is Io || e is Limit) && (self.reliable() ==> payload_in(
                    file_of(self.segments(), seq),
                    offset as nat,
                    stored_len as nat,
                ) is None),
            },
    ;

    /// Read many record payloads; the i-th result answers the i-th request.
    fn read_many(&self, reqs: &Vec<ReadRequest>) -> (r: Vec<Result<Vec<u8>, StoreError>>)
        ensures
            r@.len() == reqs@.len(),
            forall|i: int|
                0 <= i < reqs@.len() ==> match #[trigger] r@[i] {
                    Ok(b) => payload_in(
                        file_of(self.segments(), reqs@[i].segment_seq),
                        reqs@[i].offset as nat,
                        reqs@[i].stored_len as nat,
                    ) == Some(b@),
                    Err(e) => (e is Io || e is Limit) && (self.reliable() ==> payload_in(
                        file_of(self.segments(), reqs@[i].segment_seq),
                        reqs@[i].offset as nat,
                        reqs@[i].stored_len as nat,
                    ) is None),
                },
    ;

    /// Write one superblock slot.
    fn write_superblock_slot(&mut self, offset: u64, slot: &[u8]) -> (r: Result<(), StoreError>)
        ensures
            match r {
                Ok(_) => final(self).superblock() == written(
                    old(self).superblock(),
                    offset as nat,
                    slot@,
                ),
                Err(e) => e is Io && !old(self).reliable(),
            },
            final(self).segments() == old(self).segments(),
            final(self).reliable() == old(self).reliable(),
            final(self).synced() == old(self).synced(),
            final(self).calls() == one_call_more(old(self).calls()),
    ;

    /// fsync the superblock file.
    fn fsync_superblock(&mut self) -> (r: Result<(), StoreError>)
        ensures
            r matches Err(e) ==> e is Io && !old(self).reliable(),
            final(self).segments() == old(self).segments(),
            final(self).superblock() == old(self).superblock(),
            final(self).reliable() == old(self).reliable(),
            final(self).synced() == (Synced {
                superblock: final(self).synced().superblock,
                ..old(self).synced()
            }),
            r is Ok ==> final(self).synced().superblock == old(self).superblock(),
            final(self).calls() == one_call_more(old(self).calls()),
    ;
}

// ---------------------------------------------------------------------------
// Opening a segment
// ---------------------------------------------------------------------------

/// The last clean record boundary from `at` on: the offset at which sequential
/// record validation first fails, or the end.
pub open spec fn clean_from(bytes: Seq<u8>, at: nat) -> nat
    decreases bytes.len() - at,
{
    if at >= bytes.len() {
        at
    } else {
        match parse_record(bytes.skip(at as int)) {
            Ok(Some(v)) => {
                proof {
                    crate::record::lemma_parse_local(
                        bytes.skip(at as int),
                        bytes.skip(at as int).len(),
                    );
                }
                clean_from(bytes, at + record_size(v))
            },
            _ => at,
        }
    }
}

/// The last clean record boundary of a segment.
pub open spec fn clean_end(bytes: Seq<u8>) -> nat {
    if bytes.len() < 4 {
        bytes.len()
    } else {
        clean_from(bytes, 4)
    }
}

/// What opening a segment for append leaves: the magic in a fresh file, an
/// existing one without its torn tail.
pub open spec fn opened(before: Seq<u8>, after: Seq<u8>, end: nat) -> bool {
    if before.len() == 0 {
        after == magic_bytes() && end == 4
    } else {
        &&& has_magic(before)
        &&& after == before.take(clean_end(before) as int)
        &&& end == after.len()
    }
}

/// Find the last clean record boundary in segment bytes.
pub fn find_clean_end_bytes(bytes: &[u8]) -> (r: u64)
    ensures
        r == clean_end(bytes@),
        r <= bytes@.len(),
        bytes@.len() >= 4 ==> r >= 4,
{
    if bytes.len() < 4 {
        return bytes.len() as u64;
    }
    let total: u64 = bytes.len() as u64;
    let mut offset: u64 = 4;
    while offset < total
        invariant
            4 <= offset <= total,
            total == bytes@.len(),
            clean_end(bytes@) == clean_from(bytes@, offset as nat),
        decreases total - offset,
    {
        match record::decode(bytes, offset) {
            Ok(Some(rec)) => {
                offset = offset + (HEADER_SIZE + rec.stored_len as u64);
            },
            Ok(None) => {
                return offset;
            },
            Err(_) => {
                return offset;
            },
        }
    }
    offset
}

/// The segment magic.
pub fn magic() -> (r: Vec<u8>)
    ensures
        r@ == magic_bytes(),
        r@.len() == 4,
{
    let mut w = Writer::new();
    w.u32(SEGMENT_MAGIC);
    proof {
        crate::codec::lemma_scan_u32(SEGMENT_MAGIC, Seq::empty());
        assert(w@ =~= magic_bytes());
    }
    w.into_bytes()
}

/// Open a segment: create it (magic, made durable), or validate it and truncate
/// the torn tail. A truncated or wrong magic is malformed.
pub fn open_segment_common<B: IoBackend>(io: &mut B, seq: u64) -> (r: Result<u64, StoreError>)
    ensures
        match r {
            Ok(end) => opened(
                file_of(old(io).segments(), seq),
                file_of(final(io).segments(), seq),
                end as nat,
            ) && end >= 4,
            Err(StoreError::Segment(SegmentError::Malformed)) => file_of(
                old(io).segments(),
                seq,
            ).len() > 0 && !has_magic(file_of(old(io).segments(), seq)),
            Err(e) => e is Io && !old(io).reliable(),
        },
        final(io).reliable() == old(io).reliable(),
        same_but(old(io).segments(), final(io).segments(), seq),
        final(io).superblock() == old(io).superblock(),
        same_but(old(io).synced().segments, final(io).synced().segments, seq),
        final(io).synced() == (Synced {
            segments: final(io).synced().segments,
            ..old(io).synced()
        }),
{
    let ghost f0 = file_of(io.segments(), seq);
    let len: u64 = match io.segment_len(seq) {
        Ok(n) => n,
        Err(e) => return Err(e),
    };
    if len == 0 {
        let m = magic();
        match io.write_at(seq, 0, &m) {
            Ok(_) => {},
            Err(e) => return Err(e),
        }
        proof {
            assert(written(f0, 0, m@) =~= m@);
            assert(old(io).synced().segments.insert(seq, m@).remove(seq)
                =~= old(io).synced().segments.remove(seq));
            assert(old(io).segments().remove(seq) =~= io.segments().remove(seq));
        }
        match io.sync_segment_file(seq) {
            Ok(_) => {},
            Err(e) => return Err(e),
        }
        return Ok(4);
    }
    let bytes = match io.read_segment_file(seq) {
        Ok(b) => b,
        Err(e) => return Err(e),
    };
    if bytes.len() < 4 {
        return Err(StoreError::Segment(SegmentError::Malformed));
    }
    if !check_magic(&bytes) {
        return Err(StoreError::Segment(SegmentError::Malformed));
    }
    let clean: u64 = find_clean_end_bytes(&bytes);
    if clean < len {
        match io.truncate_segment(seq, clean) {
            Ok(_) => {},
            Err(e) => return Err(e),
        }
        proof {
            assert(old(io).segments().remove(seq) =~= io.segments().remove(seq));
            assert(old(io).synced().segments.insert(seq, file_of(io.segments(), seq)).remove(seq)
                =~= old(io).synced().segments.remove(seq));
        }
        match io.fdatasync_segment(seq) {
            Ok(_) => {},
            Err(e) => return Err(e),
        }
    } else {
        assert(f0.take(clean as int) =~= f0);
    }
    match io.segment_len(seq) {
        Ok(n) => Ok(n),
        Err(e) => Err(e),
    }
}

/// Opening a segment a second time changes nothing more.
pub proof fn reopen_is_stable(bytes: Seq<u8>)
    requires
        has_magic(bytes),
    ensures
        has_magic(bytes.take(clean_end(bytes) as int)),
        clean_end(bytes.take(clean_end(bytes) as int)) == clean_end(bytes),
{
    lemma_clean_bounds(bytes, 4);
    let cut = bytes.take(clean_end(bytes) as int);
    assert(cut.take(4) =~= bytes.take(4));
    lemma_clean_stable(bytes, 4);
}

pub proof fn lemma_clean_bounds(bytes: Seq<u8>, at: nat)
    requires
        at <= bytes.len(),
    ensures
        at <= clean_from(bytes, at) <= bytes.len(),
    decreases bytes.len() - at,
{
    if at < bytes.len() {
        match parse_record(bytes.skip(at as int)) {
            Ok(Some(v)) => {
                lemma_record_fits(bytes.skip(at as int));
                lemma_clean_bounds(bytes, at + record_size(v));
            },
            _ => {},
        }
    }
}

/// A record that parses lies within the input, and parses the same where the
/// input goes on differently behind it.
proof fn lemma_record_fits(s: Seq<u8>)
    requires
        parse_record(s) matches Ok(Some(_)),
    ensures
        record_size(parse_record(s)->Ok_0->0) <= s.len(),
{
    crate::record::lemma_parse_local(s, s.len());
}

proof fn lemma_clean_stable(bytes: Seq<u8>, at: nat)
    requires
        at <= bytes.len(),
    ensures
        clean_from(bytes.take(clean_from(bytes, at) as int), at) == clean_from(bytes, at),
    decreases bytes.len() - at,
{
    let end = clean_from(bytes, at);
    lemma_clean_bounds(bytes, at);
    let cut = bytes.take(end as int);
    if at < bytes.len() {
        match parse_record(bytes.skip(at as int)) {
            Ok(Some(v)) => {
                let next = at + record_size(v);
                lemma_record_fits(bytes.skip(at as int));
                lemma_clean_bounds(bytes, next);
                crate::record::lemma_parse_local(bytes.skip(at as int), (end - at) as nat);
                assert(bytes.skip(at as int).take(end - at) =~= cut.skip(at as int));
                lemma_clean_stable(bytes, next);
            },
            _ => {},
        }
    }
}

} // verus!
