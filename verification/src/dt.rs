//! `d_type` constants of directory entries.

use vstd::prelude::*;

verus! {

/// Unknown type (the kernel will ask for the attributes).
pub const DT_UNKNOWN: u8 = 0;

/// Directory.
pub const DT_DIR: u8 = 4;

/// Regular file.
pub const DT_REG: u8 = 8;

/// Symbolic link.
pub const DT_LNK: u8 = 10;

/// Character device.
pub const DT_CHR: u8 = 2;

/// Block device.
pub const DT_BLK: u8 = 6;

/// FIFO.
pub const DT_FIFO: u8 = 1;

/// Socket.
pub const DT_SOCK: u8 = 12;

} // verus!
