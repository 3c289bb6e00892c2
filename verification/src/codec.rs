//! The byte codec under every stored structure: a little-endian writer, a
//! bounds-checked reader, and the specification-side parser state that the
//! decoders' contracts are written with.

use vstd::prelude::*;

use crate::chunk::ChunkId;
use crate::bytes::{append_bytes, le_bytes, le_value, lemma_le_canonical, lemma_le_round_trip,
    lemma_pow256, pow256};

verus! {

/// Why a byte string is not the encoding of a value.
#[derive(Clone, Copy, Debug, PartialEq, Eq, Structural)]
pub enum CodecError {
    /// The input ended inside a field.
    Truncated,
    /// A field holds a value that the format does not allow.
    Malformed,
    /// A length or count is over its limit.
    TooLong,
}

impl CodecError {
    /// The text of the error.
    pub open spec fn text(self) -> Seq<char> {
        match self {
            CodecError::Truncated => "truncated input"@,
            CodecError::Malformed => "malformed input"@,
            CodecError::TooLong => "length over limit"@,
        }
    }

    pub fn describe(self) -> (r: String)
        ensures
            r@ == self.text(),
    {
        match self {
            CodecError::Truncated => "truncated input".to_string(),
            CodecError::Malformed => "malformed input".to_string(),
            CodecError::TooLong => "length over limit".to_string(),
        }
    }
}

// ---------------------------------------------------------------------------
// Specification-side parsing
// ---------------------------------------------------------------------------

/// What is left to parse, or the first error met: errors stick, so a format is
/// written as a plain sequence of reads.
pub type Scan = Result<Seq<u8>, CodecError>;

/// The next `n` bytes.
pub open spec fn scan_take(st: Scan, n: nat) -> (Seq<u8>, Scan) {
    match st {
        Err(e) => (Seq::empty(), Err(e)),
        Ok(s) => if s.len() < n {
            (Seq::empty(), Err(CodecError::Truncated))
        } else {
            (s.take(n as int), Ok(s.skip(n as int)))
        },
    }
}

pub open spec fn scan_u8(st: Scan) -> (u8, Scan) {
    let (b, rest) = scan_take(st, 1);
    (le_value(b) as u8, rest)
}

pub open spec fn scan_u16(st: Scan) -> (u16, Scan) {
    let (b, rest) = scan_take(st, 2);
    (le_value(b) as u16, rest)
}

pub open spec fn scan_u32(st: Scan) -> (u32, Scan) {
    let (b, rest) = scan_take(st, 4);
    (le_value(b) as u32, rest)
}

pub open spec fn scan_u64(st: Scan) -> (u64, Scan) {
    let (b, rest) = scan_take(st, 8);
    (le_value(b) as u64, rest)
}

/// A byte string behind a two-byte length.
pub open spec fn scan_bytes16(st: Scan) -> (Seq<u8>, Scan) {
    let (n, rest) = scan_u16(st);
    scan_take(rest, n as nat)
}

/// A byte string behind a four-byte length.
pub open spec fn scan_bytes32(st: Scan) -> (Seq<u8>, Scan) {
    let (n, rest) = scan_u32(st);
    scan_take(rest, n as nat)
}

/// Fails with `e` unless `ok`.
pub open spec fn scan_check(st: Scan, ok: bool, e: CodecError) -> Scan {
    match st {
        Err(x) => Err(x),
        Ok(s) => if ok {
            Ok(s)
        } else {
            Err(e)
        },
    }
}

/// Fails unless the whole input was read.
pub open spec fn scan_end(st: Scan) -> Scan {
    match st {
        Err(x) => Err(x),
        Ok(s) => if s.len() == 0 {
            Ok(s)
        } else {
            Err(CodecError::Malformed)
        },
    }
}

/// The bytes of a length-prefixed string.
pub open spec fn bytes16(b: Seq<u8>) -> Seq<u8> {
    le_bytes(b.len(), 2) + b
}

pub open spec fn bytes32(b: Seq<u8>) -> Seq<u8> {
    le_bytes(b.len(), 4) + b
}

pub open spec fn u8_bytes(v: u8) -> Seq<u8> {
    le_bytes(v as nat, 1)
}

pub open spec fn u16_bytes(v: u16) -> Seq<u8> {
    le_bytes(v as nat, 2)
}

pub open spec fn u32_bytes(v: u32) -> Seq<u8> {
    le_bytes(v as nat, 4)
}

pub open spec fn u64_bytes(v: u64) -> Seq<u8> {
    le_bytes(v as nat, 8)
}

pub proof fn lemma_scan_take(b: Seq<u8>, rest: Seq<u8>)
    ensures
        scan_take(Ok(b + rest), b.len()) == (b, Ok::<Seq<u8>, CodecError>(rest)),
{
    assert((b + rest).take(b.len() as int) =~= b);
    assert((b + rest).skip(b.len() as int) =~= rest);
}

pub proof fn lemma_scan_u8(v: u8, rest: Seq<u8>)
    ensures
        u8_bytes(v).len() == 1,
        scan_u8(Ok(u8_bytes(v) + rest)) == (v, Ok::<Seq<u8>, CodecError>(rest)),
{
    lemma_pow256();
    lemma_le_round_trip(v as nat, 1);
    lemma_scan_take(u8_bytes(v), rest);
}

pub proof fn lemma_scan_u16(v: u16, rest: Seq<u8>)
    ensures
        u16_bytes(v).len() == 2,
        scan_u16(Ok(u16_bytes(v) + rest)) == (v, Ok::<Seq<u8>, CodecError>(rest)),
{
    lemma_pow256();
    lemma_le_round_trip(v as nat, 2);
    lemma_scan_take(u16_bytes(v), rest);
}

pub proof fn lemma_scan_u32(v: u32, rest: Seq<u8>)
    ensures
        u32_bytes(v).len() == 4,
        scan_u32(Ok(u32_bytes(v) + rest)) == (v, Ok::<Seq<u8>, CodecError>(rest)),
{
    lemma_pow256();
    lemma_le_round_trip(v as nat, 4);
    lemma_scan_take(u32_bytes(v), rest);
}

pub proof fn lemma_scan_u64(v: u64, rest: Seq<u8>)
    ensures
        u64_bytes(v).len() == 8,
        scan_u64(Ok(u64_bytes(v) + rest)) == (v, Ok::<Seq<u8>, CodecError>(rest)),
{
    lemma_pow256();
    lemma_le_round_trip(v as nat, 8);
    lemma_scan_take(u64_bytes(v), rest);
}

pub proof fn lemma_scan_bytes16(b: Seq<u8>, rest: Seq<u8>)
    requires
        b.len() <= u16::MAX,
    ensures
        bytes16(b).len() == 2 + b.len(),
        scan_bytes16(Ok(bytes16(b) + rest)) == (b, Ok::<Seq<u8>, CodecError>(rest)),
{
    lemma_scan_u16(b.len() as u16, b + rest);
    assert(bytes16(b) + rest =~= u16_bytes(b.len() as u16) + (b + rest));
    lemma_scan_take(b, rest);
}

pub proof fn lemma_scan_bytes32(b: Seq<u8>, rest: Seq<u8>)
    requires
        b.len() <= u32::MAX,
    ensures
        bytes32(b).len() == 4 + b.len(),
        scan_bytes32(Ok(bytes32(b) + rest)) == (b, Ok::<Seq<u8>, CodecError>(rest)),
{
    lemma_scan_u32(b.len() as u32, b + rest);
    assert(bytes32(b) + rest =~= u32_bytes(b.len() as u32) + (b + rest));
    lemma_scan_take(b, rest);
}

/// Reading a fixed-width integer off the front gives back the bytes read: the
/// encoding of the value, followed by what is left.
pub proof fn lemma_unscan_u16(s: Seq<u8>)
    requires
        scan_u16(Ok(s)).1 is Ok,
    ensures
        s == u16_bytes(scan_u16(Ok(s)).0) + scan_u16(Ok(s)).1->Ok_0,
{
    lemma_pow256();
    lemma_le_canonical(s.take(2));
    assert(s =~= s.take(2) + s.skip(2));
}

pub proof fn lemma_unscan_u32(s: Seq<u8>)
    requires
        scan_u32(Ok(s)).1 is Ok,
    ensures
        s == u32_bytes(scan_u32(Ok(s)).0) + scan_u32(Ok(s)).1->Ok_0,
{
    lemma_pow256();
    lemma_le_canonical(s.take(4));
    assert(s =~= s.take(4) + s.skip(4));
}

pub proof fn lemma_unscan_u64(s: Seq<u8>)
    requires
        scan_u64(Ok(s)).1 is Ok,
    ensures
        s == u64_bytes(scan_u64(Ok(s)).0) + scan_u64(Ok(s)).1->Ok_0,
{
    lemma_pow256();
    lemma_le_canonical(s.take(8));
    assert(s =~= s.take(8) + s.skip(8));
}

pub proof fn lemma_unscan_u8(s: Seq<u8>)
    requires
        scan_u8(Ok(s)).1 is Ok,
    ensures
        s == u8_bytes(scan_u8(Ok(s)).0) + scan_u8(Ok(s)).1->Ok_0,
        scan_u8(Ok(s)).0 == s[0],
{
    lemma_pow256();
    lemma_le_canonical(s.take(1));
    assert(s =~= s.take(1) + s.skip(1));
    reveal_with_fuel(le_value, 2);
}

pub proof fn lemma_unscan_bytes16(s: Seq<u8>)
    requires
        scan_bytes16(Ok(s)).1 is Ok,
    ensures
        scan_bytes16(Ok(s)).0.len() <= u16::MAX,
        s == bytes16(scan_bytes16(Ok(s)).0) + scan_bytes16(Ok(s)).1->Ok_0,
{
    lemma_unscan_u16(s);
    let rest = scan_u16(Ok(s)).1->Ok_0;
    let n = scan_u16(Ok(s)).0 as int;
    assert(rest =~= rest.take(n) + rest.skip(n));
    assert(s =~= bytes16(scan_bytes16(Ok(s)).0) + scan_bytes16(Ok(s)).1->Ok_0);
}

pub proof fn lemma_unscan_bytes32(s: Seq<u8>)
    requires
        scan_bytes32(Ok(s)).1 is Ok,
    ensures
        scan_bytes32(Ok(s)).0.len() <= u32::MAX,
        s == bytes32(scan_bytes32(Ok(s)).0) + scan_bytes32(Ok(s)).1->Ok_0,
{
    lemma_unscan_u32(s);
    let rest = scan_u32(Ok(s)).1->Ok_0;
    let n = scan_u32(Ok(s)).0 as int;
    assert(rest =~= rest.take(n) + rest.skip(n));
    assert(s =~= bytes32(scan_bytes32(Ok(s)).0) + scan_bytes32(Ok(s)).1->Ok_0);
}

// ---------------------------------------------------------------------------
// Writer
// ---------------------------------------------------------------------------

/// An append-only byte buffer.
pub struct Writer {
    buf: Vec<u8>,
}

impl View for Writer {
    type V = Seq<u8>;

    closed spec fn view(&self) -> Seq<u8> {
        self.buf@
    }
}

impl Writer {
    pub fn new() -> (r: Writer)
        ensures
            r@ == Seq::<u8>::empty(),
    {
        Writer { buf: Vec::new() }
    }

    fn put_le(&mut self, v: u64, n: usize)
        requires
            n <= 8,
        ensures
            final(self)@ == old(self)@ + le_bytes(v as nat, n as nat),
    {
        let ghost before = self.buf@;
        let ghost whole = le_bytes(v as nat, n as nat);
        let mut rest: u64 = v;
        let mut i: usize = 0;
        proof {
            assert(before + le_bytes(v as nat, n as nat) =~= self.buf@ + le_bytes(
                rest as nat,
                n as nat,
            ));
        }
        while i < n
            invariant
                i <= n <= 8,
                before + whole == self.buf@ + le_bytes(rest as nat, (n - i) as nat),
            decreases n - i,
        {
            let ghost had = self.buf@;
            self.buf.push((rest % 256) as u8);
            proof {
                assert(had + le_bytes(rest as nat, (n - i) as nat) =~= self.buf@ + le_bytes(
                    rest as nat / 256,
                    (n - i - 1) as nat,
                ));
            }
            rest = rest / 256;
            i += 1;
        }
        assert(self.buf@ + le_bytes(rest as nat, 0) =~= self.buf@);
    }

    pub fn u8(&mut self, v: u8)
        ensures
            final(self)@ == old(self)@ + u8_bytes(v),
    {
        self.put_le(v as u64, 1);
    }

    pub fn u16(&mut self, v: u16)
        ensures
            final(self)@ == old(self)@ + u16_bytes(v),
    {
        self.put_le(v as u64, 2);
    }

    pub fn u32(&mut self, v: u32)
        ensures
            final(self)@ == old(self)@ + u32_bytes(v),
    {
        self.put_le(v as u64, 4);
    }

    pub fn u64(&mut self, v: u64)
        ensures
            final(self)@ == old(self)@ + u64_bytes(v),
    {
        self.put_le(v, 8);
    }

    pub fn bytes(&mut self, b: &[u8])
        ensures
            final(self)@ == old(self)@ + b@,
    {
        append_bytes(&mut self.buf, b);
    }

    /// A byte string behind a two-byte length.
    pub fn bytes16(&mut self, b: &[u8]) -> (r: Result<(), CodecError>)
        ensures
            match r {
                Ok(_) => b@.len() <= u16::MAX && final(self)@ == old(self)@ + bytes16(b@),
                Err(e) => b@.len() > u16::MAX && e == CodecError::TooLong && final(self)@ == old(self)@,
            },
    {
        if b.len() > 0xffff {
            return Err(CodecError::TooLong);
        }
        let ghost before = self@;
        self.u16(b.len() as u16);
        self.bytes(b);
        assert(self@ =~= before + bytes16(b@));
        Ok(())
    }

    /// A byte string behind a four-byte length.
    pub fn bytes32(&mut self, b: &[u8]) -> (r: Result<(), CodecError>)
        ensures
            match r {
                Ok(_) => b@.len() <= u32::MAX && final(self)@ == old(self)@ + bytes32(b@),
                Err(e) => b@.len() > u32::MAX && e == CodecError::TooLong && final(self)@ == old(self)@,
            },
    {
        if b.len() > 0xffff_ffff {
            return Err(CodecError::TooLong);
        }
        let ghost before = self@;
        self.u32(b.len() as u32);
        self.bytes(b);
        assert(self@ =~= before + bytes32(b@));
        Ok(())
    }

    pub fn into_bytes(self) -> (r: Vec<u8>)
        ensures
            r@ == self@,
    {
        self.buf
    }
}

// ---------------------------------------------------------------------------
// Reader
// ---------------------------------------------------------------------------

/// A cursor over a byte string. Its view is what is left to read.
pub struct Reader<'a> {
    bytes: &'a [u8],
    at: usize,
}

impl<'a> View for Reader<'a> {
    type V = Seq<u8>;

    closed spec fn view(&self) -> Seq<u8> {
        self.bytes@.skip(self.at as int)
    }
}

impl<'a> Reader<'a> {
    #[verifier::type_invariant]
    closed spec fn in_bounds(self) -> bool {
        self.at <= self.bytes@.len()
    }

    /// The whole input, read part and all.
    pub closed spec fn input(&self) -> Seq<u8> {
        self.bytes@
    }

    pub fn new(bytes: &'a [u8]) -> (r: Reader<'a>)
        ensures
            r@ == bytes@,
            r.input() == bytes@,
    {
        assert(bytes@.skip(0) =~= bytes@);
        Reader { bytes, at: 0 }
    }

    /// How many bytes have been read.
    pub fn pos(&self) -> (r: usize)
        ensures
            r + self@.len() == self.input().len(),
            self@ == self.input().skip(r as int),
    {
        proof {
            use_type_invariant(self);
        }
        self.at
    }

    pub fn done(&self) -> (r: bool)
        ensures
            r == (self@.len() == 0),
    {
        proof {
            use_type_invariant(self);
        }
        self.at == self.bytes.len()
    }

    /// The next `n` bytes.
    pub fn take(&mut self, n: usize) -> (r: Result<&'a [u8], CodecError>)
        ensures
            final(self).input() == old(self).input(),
            match r {
                Ok(b) => scan_take(Ok(old(self)@), n as nat) == (b@, Ok::<Seq<u8>, CodecError>(
                    final(self)@,
                )) && b@.len() == n,
                Err(e) => scan_take(Ok(old(self)@), n as nat).1 == Err::<Seq<u8>, CodecError>(e)
                    && e == CodecError::Truncated && final(self)@ == old(self)@,
            },
    {
        proof {
            use_type_invariant(&*self);
        }
        if self.bytes.len() - self.at < n {
            return Err(CodecError::Truncated);
        }
        let from: usize = self.at;
        let out = vstd::slice::slice_subrange(self.bytes, from, from + n);
        proof {
            let s = self.bytes@.skip(from as int);
            assert(s.take(n as int) =~= out@);
            assert(s.skip(n as int) =~= self.bytes@.skip(from + n));
        }
        self.at = from + n;
        Ok(out)
    }

    fn get_le(&mut self, n: usize) -> (r: Result<u64, CodecError>)
        requires
            n <= 8,
        ensures
            final(self).input() == old(self).input(),
            match r {
                Ok(v) => {
                    let (b, rest) = scan_take(Ok(old(self)@), n as nat);
                    v == le_value(b) && rest == Ok::<Seq<u8>, CodecError>(final(self)@) && v
                        < pow256(n as nat)
                },
                Err(e) => scan_take(Ok(old(self)@), n as nat).1 == Err::<Seq<u8>, CodecError>(e)
                    && e == CodecError::Truncated && final(self)@ == old(self)@,
            },
    {
        let b = match self.take(n) {
            Ok(b) => b,
            Err(e) => return Err(e),
        };
        let mut v: u64 = 0;
        let mut i: usize = n;
        assert(b@.skip(n as int) =~= Seq::empty());
        while i > 0
            invariant
                i <= n <= 8,
                b@.len() == n,
                v == le_value(b@.skip(i as int)),
            decreases i,
        {
            proof {
                let next = b@.skip(i - 1);
                assert(next.drop_first() =~= b@.skip(i as int));
                lemma_le_canonical(next);
                reveal_with_fuel(pow256, 9);
            }
            i -= 1;
            v = b[i] as u64 + 256 * v;
        }
        proof {
            assert(b@.skip(0) =~= b@);
            lemma_le_canonical(b@);
        }
        Ok(v)
    }

    pub fn u8(&mut self) -> (r: Result<u8, CodecError>)
        ensures
            final(self).input() == old(self).input(),
            match r {
                Ok(v) => scan_u8(Ok(old(self)@)) == (v, Ok::<Seq<u8>, CodecError>(final(self)@)),
                Err(e) => scan_u8(Ok(old(self)@)).1 == Err::<Seq<u8>, CodecError>(e) && e
                    == CodecError::Truncated && final(self)@ == old(self)@,
            },
    {
        proof {
            lemma_pow256();
        }
        match self.get_le(1) {
            Ok(v) => Ok(v as u8),
            Err(e) => Err(e),
        }
    }

    pub fn u16(&mut self) -> (r: Result<u16, CodecError>)
        ensures
            final(self).input() == old(self).input(),
            match r {
                Ok(v) => scan_u16(Ok(old(self)@)) == (v, Ok::<Seq<u8>, CodecError>(final(self)@)),
                Err(e) => scan_u16(Ok(old(self)@)).1 == Err::<Seq<u8>, CodecError>(e) && e
                    == CodecError::Truncated && final(self)@ == old(self)@,
            },
    {
        proof {
            lemma_pow256();
        }
        match self.get_le(2) {
            Ok(v) => Ok(v as u16),
            Err(e) => Err(e),
        }
    }

    pub fn u32(&mut self) -> (r: Result<u32, CodecError>)
        ensures
            final(self).input() == old(self).input(),
            match r {
                Ok(v) => scan_u32(Ok(old(self)@)) == (v, Ok::<Seq<u8>, CodecError>(final(self)@)),
                Err(e) => scan_u32(Ok(old(self)@)).1 == Err::<Seq<u8>, CodecError>(e) && e
                    == CodecError::Truncated && final(self)@ == old(self)@,
            },
    {
        proof {
            lemma_pow256();
        }
        match self.get_le(4) {
            Ok(v) => Ok(v as u32),
            Err(e) => Err(e),
        }
    }

    pub fn u64(&mut self) -> (r: Result<u64, CodecError>)
        ensures
            final(self).input() == old(self).input(),
            match r {
                Ok(v) => scan_u64(Ok(old(self)@)) == (v, Ok::<Seq<u8>, CodecError>(final(self)@)),
                Err(e) => scan_u64(Ok(old(self)@)).1 == Err::<Seq<u8>, CodecError>(e) && e
                    == CodecError::Truncated && final(self)@ == old(self)@,
            },
    {
        self.get_le(8)
    }

    /// A byte string behind a two-byte length.
    pub fn bytes16(&mut self) -> (r: Result<&'a [u8], CodecError>)
        ensures
            final(self).input() == old(self).input(),
            match r {
                Ok(b) => scan_bytes16(Ok(old(self)@)) == (b@, Ok::<Seq<u8>, CodecError>(
                    final(self)@,
                )) && b@.len() <= u16::MAX,
                Err(e) => scan_bytes16(Ok(old(self)@)).1 == Err::<Seq<u8>, CodecError>(e) && e
                    == CodecError::Truncated,
            },
    {
        match self.u16() {
            Ok(n) => self.take(n as usize),
            Err(e) => Err(e),
        }
    }

    /// A byte string behind a four-byte length.
    pub fn bytes32(&mut self) -> (r: Result<&'a [u8], CodecError>)
        ensures
            final(self).input() == old(self).input(),
            match r {
                Ok(b) => scan_bytes32(Ok(old(self)@)) == (b@, Ok::<Seq<u8>, CodecError>(
                    final(self)@,
                )) && b@.len() <= u32::MAX,
                Err(e) => scan_bytes32(Ok(old(self)@)).1 == Err::<Seq<u8>, CodecError>(e) && e
                    == CodecError::Truncated,
            },
    {
        match self.u32() {
            Ok(n) => self.take(n as usize),
            Err(e) => Err(e),
        }
    }
}

// ---------------------------------------------------------------------------
// Cursor
// ---------------------------------------------------------------------------

/// A reader whose first error sticks: after it every read yields nothing, and
/// [`Cursor::result`] reports it.
pub struct Cursor<'a> {
    bytes: &'a [u8],
    at: usize,
    failed: Option<CodecError>,
}

impl<'a> View for Cursor<'a> {
    type V = Scan;

    closed spec fn view(&self) -> Scan {
        match self.failed {
            Some(e) => Err(e),
            None => Ok(self.bytes@.skip(self.at as int)),
        }
    }
}

impl<'a> Cursor<'a> {
    #[verifier::type_invariant]
    closed spec fn in_bounds(self) -> bool {
        self.at <= self.bytes@.len()
    }

    pub fn new(bytes: &'a [u8]) -> (r: Cursor<'a>)
        ensures
            r@ == Ok::<Seq<u8>, CodecError>(bytes@),
    {
        assert(bytes@.skip(0) =~= bytes@);
        Cursor { bytes, at: 0, failed: None }
    }

    /// The next `n` bytes.
    pub fn take(&mut self, n: usize) -> (r: &'a [u8])
        ensures
            scan_take(old(self)@, n as nat) == (r@, final(self)@),
    {
        proof {
            use_type_invariant(&*self);
        }
        let from: usize = self.at;
        let none = vstd::slice::slice_subrange(self.bytes, from, from);
        assert(none@ =~= Seq::empty());
        if self.failed.is_some() {
            return none;
        }
        if self.bytes.len() - from < n {
            self.failed = Some(CodecError::Truncated);
            return none;
        }
        let out = vstd::slice::slice_subrange(self.bytes, from, from + n);
        proof {
            let s = self.bytes@.skip(from as int);
            assert(s.take(n as int) =~= out@);
            assert(s.skip(n as int) =~= self.bytes@.skip(from + n));
        }
        self.at = from + n;
        out
    }

    fn get_le(&mut self, n: usize) -> (r: u64)
        requires
            n <= 8,
        ensures
            r == le_value(scan_take(old(self)@, n as nat).0),
            final(self)@ == scan_take(old(self)@, n as nat).1,
            r < pow256(n as nat),
    {
        let b = self.take(n);
        let mut v: u64 = 0;
        let mut i: usize = b.len();
        proof {
            assert(b@.len() <= n);
            assert(b@.skip(i as int) =~= Seq::empty());
        }
        while i > 0
            invariant
                i <= b@.len() <= n <= 8,
                v == le_value(b@.skip(i as int)),
            decreases i,
        {
            proof {
                let next = b@.skip(i - 1);
                assert(next.drop_first() =~= b@.skip(i as int));
                lemma_le_canonical(next);
                reveal_with_fuel(pow256, 9);
            }
            i -= 1;
            v = b[i] as u64 + 256 * v;
        }
        proof {
            assert(b@.skip(0) =~= b@);
            lemma_le_canonical(b@);
            reveal_with_fuel(pow256, 9);
        }
        v
    }

    pub fn u8(&mut self) -> (r: u8)
        ensures
            scan_u8(old(self)@) == (r, final(self)@),
    {
        proof {
            lemma_pow256();
        }
        self.get_le(1) as u8
    }

    pub fn u16(&mut self) -> (r: u16)
        ensures
            scan_u16(old(self)@) == (r, final(self)@),
    {
        proof {
            lemma_pow256();
        }
        self.get_le(2) as u16
    }

    pub fn u32(&mut self) -> (r: u32)
        ensures
            scan_u32(old(self)@) == (r, final(self)@),
    {
        proof {
            lemma_pow256();
        }
        self.get_le(4) as u32
    }

    pub fn u64(&mut self) -> (r: u64)
        ensures
            scan_u64(old(self)@) == (r, final(self)@),
    {
        self.get_le(8)
    }

    /// A byte string behind a two-byte length.
    pub fn bytes16(&mut self) -> (r: &'a [u8])
        ensures
            scan_bytes16(old(self)@) == (r@, final(self)@),
    {
        let n: u16 = self.u16();
        self.take(n as usize)
    }

    /// A byte string behind a four-byte length.
    pub fn bytes32(&mut self) -> (r: &'a [u8])
        ensures
            scan_bytes32(old(self)@) == (r@, final(self)@),
    {
        let n: u32 = self.u32();
        self.take(n as usize)
    }

    /// A 32-byte id; the zero id once the input has failed.
    pub fn id(&mut self) -> (r: ChunkId)
        ensures
            final(self)@ == scan_take(old(self)@, 32).1,
            final(self)@ is Ok ==> r@ == scan_take(old(self)@, 32).0,
    {
        let b = self.take(32);
        if b.len() == 32 {
            ChunkId::from_slice(b)
        } else {
            ChunkId::zero()
        }
    }

    /// Fails with `e` unless `ok`.
    pub fn check(&mut self, ok: bool, e: CodecError)
        ensures
            final(self)@ == scan_check(old(self)@, ok, e),
    {
        proof {
            use_type_invariant(&*self);
        }
        if self.failed.is_none() && !ok {
            self.failed = Some(e);
        }
    }

    /// Fails unless the whole input was read.
    pub fn end(&mut self)
        ensures
            final(self)@ == scan_end(old(self)@),
    {
        proof {
            use_type_invariant(&*self);
        }
        if self.failed.is_none() && self.at != self.bytes.len() {
            self.failed = Some(CodecError::Malformed);
        }
    }

    /// The first error, if one was met.
    pub fn result(&self) -> (r: Result<(), CodecError>)
        ensures
            match r {
                Ok(_) => self@ is Ok,
                Err(e) => self@ == Err::<Seq<u8>, CodecError>(e),
            },
    {
        match self.failed {
            Some(e) => Err(e),
            None => Ok(()),
        }
    }
}

} // verus!
