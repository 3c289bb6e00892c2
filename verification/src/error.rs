//! Errors of the store and its segment layer.

use vstd::prelude::*;

use crate::chunk::ChunkId;
use crate::codec::CodecError;
use crate::index::BTreeError;

verus! {

/// Segment-layer errors.
#[derive(Debug, PartialEq, Eq)]
pub enum SegmentError {
    /// I/O failure.
    Io(String),
    /// Segment file malformed (bad magic/version).
    Malformed,
    /// Record envelope invalid (bad CRC/length).
    CorruptRecord(String),
    /// Sequence number overflow.
    Overflow,
    /// Segment not found.
    Missing,
}

/// Store-level errors.
#[derive(Debug, PartialEq, Eq)]
pub enum StoreError {
    /// Segment-layer failure.
    Segment(SegmentError),
    /// Superblock/root failure.
    Superblock(String),
    /// Index (B-tree) failure.
    Index(BTreeError),
    /// Object missing.
    MissingObject(ChunkId),
    /// Chunk descriptor missing.
    MissingChunk(ChunkId),
    /// Descriptor decode failure.
    Descriptor(String),
    /// Store not open / not created.
    NotOpen,
    /// Store already mounted (lock held).
    Locked,
    /// Invalid configuration.
    Config(String),
    /// Limit exceeded.
    Limit(String),
    /// No space left for a commit.
    Full(String),
    /// I/O failure.
    Io(String),
    /// Simulated crash at an armed injection point.
    CrashSimulated(String),
    /// Internal invariant violation.
    Invariant(String),
}

impl SegmentError {
    /// The error of a transport operation on a segment: the transport's own message.
    pub fn of(e: StoreError) -> (r: SegmentError)
        ensures
            match e {
                StoreError::Segment(s) => r == s,
                _ => r matches SegmentError::Io(m) && m@ == e.text(),
            },
    {
        match e {
            StoreError::Segment(s) => s,
            _ => SegmentError::Io(e.message()),
        }
    }
}

impl SegmentError {
    /// What the error says.
    pub open spec fn text(self) -> Seq<char> {
        match self {
            SegmentError::Io(m) | SegmentError::CorruptRecord(m) => m@,
            SegmentError::Malformed => "segment malformed"@,
            SegmentError::Overflow => "sequence number overflow"@,
            SegmentError::Missing => "segment not found"@,
        }
    }

    /// What the error says.
    pub fn message(self) -> (r: String)
        ensures
            r@ == self.text(),
    {
        match self {
            SegmentError::Io(m) => m,
            SegmentError::CorruptRecord(m) => m,
            SegmentError::Malformed => "segment malformed".to_string(),
            SegmentError::Overflow => "sequence number overflow".to_string(),
            SegmentError::Missing => "segment not found".to_string(),
        }
    }
}

impl BTreeError {
    /// What the error says.
    pub open spec fn text(self) -> Seq<char> {
        match self {
            BTreeError::Provider(m) | BTreeError::Corrupt(m) | BTreeError::Invariant(m) => m@,
            BTreeError::KeyTooLong => "key too long"@,
            BTreeError::ValueTooLarge => "value too large"@,
        }
    }

    /// What the error says.
    pub fn message(self) -> (r: String)
        ensures
            r@ == self.text(),
    {
        match self {
            BTreeError::Provider(m) => m,
            BTreeError::Corrupt(m) => m,
            BTreeError::Invariant(m) => m,
            BTreeError::KeyTooLong => "key too long".to_string(),
            BTreeError::ValueTooLarge => "value too large".to_string(),
        }
    }
}

impl StoreError {
    /// What the error says: the message that it carries, where it carries one.
    pub open spec fn text(self) -> Seq<char> {
        match self {
            StoreError::Segment(e) => e.text(),
            StoreError::Index(e) => e.text(),
            StoreError::Superblock(m) | StoreError::Descriptor(m) | StoreError::Config(m)
            | StoreError::Limit(m) | StoreError::Full(m) | StoreError::Io(m)
            | StoreError::CrashSimulated(m) | StoreError::Invariant(m) => m@,
            StoreError::MissingObject(_) => "object missing"@,
            StoreError::MissingChunk(_) => "chunk descriptor missing"@,
            StoreError::NotOpen => "store not open"@,
            StoreError::Locked => "store already mounted"@,
        }
    }

    /// What the error says.
    pub fn message(self) -> (r: String)
        ensures
            r@ == self.text(),
    {
        match self {
            StoreError::Segment(e) => e.message(),
            StoreError::Index(e) => e.message(),
            StoreError::Superblock(m) => m,
            StoreError::Descriptor(m) => m,
            StoreError::Config(m) => m,
            StoreError::Limit(m) => m,
            StoreError::Full(m) => m,
            StoreError::Io(m) => m,
            StoreError::CrashSimulated(m) => m,
            StoreError::Invariant(m) => m,
            StoreError::MissingObject(_) => "object missing".to_string(),
            StoreError::MissingChunk(_) => "chunk descriptor missing".to_string(),
            StoreError::NotOpen => "store not open".to_string(),
            StoreError::Locked => "store already mounted".to_string(),
        }
    }

    /// The error of an index operation.
    pub fn index(e: BTreeError) -> (r: StoreError)
        ensures
            r == StoreError::Index(e),
    {
        StoreError::Index(e)
    }

    /// The error of a stored structure that does not decode.
    pub fn descriptor(e: CodecError) -> (r: StoreError)
        ensures
            r matches StoreError::Descriptor(m) && m@ == e.text(),
    {
        StoreError::Descriptor(e.describe())
    }
}

} // verus!
