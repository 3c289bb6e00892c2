//! Format constants.

use vstd::prelude::*;

verus! {

/// Format major version.
pub const FORMAT_MAJOR: u16 = 1;

/// Format minor version.
pub const FORMAT_MINOR: u16 = 0;

/// The first four bytes of a segment file, as a little-endian number ("EFSS").
pub const SEGMENT_MAGIC: u32 = 0x5353_4645;

/// Length of the segment magic.
pub const SEGMENT_MAGIC_LEN: u64 = 4;

/// The first four bytes of a record ("EFSR").
pub const RECORD_MAGIC: u32 = 0x5253_4645;

/// The first four bytes of a superblock slot ("EFSB").
pub const SUPERBLOCK_MAGIC: u32 = 0x4253_4645;

/// Record header length.
pub const RECORD_HEADER_SIZE: u64 = 58;

/// Superblock slot A (even generations).
pub const SUPERBLOCK_SLOT_A_OFFSET: u64 = 0;

/// Superblock slot B (odd generations).
pub const SUPERBLOCK_SLOT_B_OFFSET: u64 = 4096;

/// Superblock slot size.
pub const SUPERBLOCK_SLOT_SIZE: u64 = 4096;

/// What a record holds.
#[derive(Debug, Clone, Copy, PartialEq, Eq, Structural)]
pub enum RecordTag {
    /// Chunk data.
    Data,
    /// Entropy model.
    Model,
    /// B-tree node.
    BtreeNode,
    /// Inode.
    Inode,
    /// Filesystem root.
    Root,
    /// Mutation-log envelope.
    MutationLog,
}

impl RecordTag {
    /// The number that stands for the tag in a record header.
    pub open spec fn code_of(self) -> u16 {
        match self {
            RecordTag::Data => 1,
            RecordTag::Model => 2,
            RecordTag::BtreeNode => 3,
            RecordTag::Inode => 4,
            RecordTag::Root => 5,
            RecordTag::MutationLog => 6,
        }
    }

    pub fn code(self) -> (r: u16)
        ensures
            r == self.code_of(),
    {
        match self {
            RecordTag::Data => 1,
            RecordTag::Model => 2,
            RecordTag::BtreeNode => 3,
            RecordTag::Inode => 4,
            RecordTag::Root => 5,
            RecordTag::MutationLog => 6,
        }
    }

    /// The tag behind a code.
    pub open spec fn with_code(code: u16) -> Option<RecordTag> {
        if code == 1 {
            Some(RecordTag::Data)
        } else if code == 2 {
            Some(RecordTag::Model)
        } else if code == 3 {
            Some(RecordTag::BtreeNode)
        } else if code == 4 {
            Some(RecordTag::Inode)
        } else if code == 5 {
            Some(RecordTag::Root)
        } else if code == 6 {
            Some(RecordTag::MutationLog)
        } else {
            None
        }
    }

    pub fn from_code(code: u16) -> (r: Option<RecordTag>)
        ensures
            r == RecordTag::with_code(code),
    {
        if code == 1 {
            Some(RecordTag::Data)
        } else if code == 2 {
            Some(RecordTag::Model)
        } else if code == 3 {
            Some(RecordTag::BtreeNode)
        } else if code == 4 {
            Some(RecordTag::Inode)
        } else if code == 5 {
            Some(RecordTag::Root)
        } else if code == 6 {
            Some(RecordTag::MutationLog)
        } else {
            None
        }
    }
}

} // verus!
