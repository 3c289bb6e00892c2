//! POSIX mode type bits.

use vstd::prelude::*;

verus! {

/// File type mask.
pub const S_IFMT: u32 = 0o170000;

/// Directory.
pub const S_IFDIR: u32 = 0o040000;

/// Regular file.
pub const S_IFREG: u32 = 0o100000;

/// Symlink.
pub const S_IFLNK: u32 = 0o120000;

/// Character device.
pub const S_IFCHR: u32 = 0o020000;

/// Block device.
pub const S_IFBLK: u32 = 0o060000;

/// FIFO.
pub const S_IFIFO: u32 = 0o010000;

/// Socket.
pub const S_IFSOCK: u32 = 0o140000;

/// Permission bits mask.
pub const S_IPERM: u32 = 0o7777;

} // verus!
