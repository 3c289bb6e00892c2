//! CRC-32 (reflected polynomial 0xEDB88320), the checksum of records and
//! superblock slots.

use vstd::prelude::*;

verus! {

/// One bit of the division.
pub open spec fn crc_bit(c: u32) -> u32 {
    if c & 1 == 1 {
        (c >> 1) ^ 0xEDB8_8320
    } else {
        c >> 1
    }
}

/// `n` bits of the division.
pub open spec fn crc_bits(c: u32, n: nat) -> u32
    decreases n,
{
    if n == 0 {
        c
    } else {
        crc_bit(crc_bits(c, (n - 1) as nat))
    }
}

/// The running remainder after `s`.
pub open spec fn crc_fold(c: u32, s: Seq<u8>) -> u32
    decreases s.len(),
{
    if s.len() == 0 {
        c
    } else {
        crc_bits(crc_fold(c, s.drop_last()) ^ (s.last() as u32), 8)
    }
}

/// The checksum of `s`.
pub open spec fn crc32_of(s: Seq<u8>) -> u32 {
    crc_fold(0xFFFF_FFFF, s) ^ 0xFFFF_FFFF
}

/// The checksum of a byte string.
pub fn crc32(bytes: &[u8]) -> (r: u32)
    ensures
        r == crc32_of(bytes@),
{
    let mut c: u32 = 0xFFFF_FFFF;
    let mut i: usize = 0;
    assert(bytes@.take(0) =~= Seq::empty());
    while i < bytes.len()
        invariant
            i <= bytes@.len(),
            c == crc_fold(0xFFFF_FFFF, bytes@.take(i as int)),
        decreases bytes@.len() - i,
    {
        let start: u32 = c ^ (bytes[i] as u32);
        let mut x: u32 = start;
        let mut k: u32 = 0;
        while k < 8
            invariant
                k <= 8,
                x == crc_bits(start, k as nat),
            decreases 8 - k,
        {
            x = if x & 1 == 1 {
                (x >> 1) ^ 0xEDB8_8320
            } else {
                x >> 1
            };
            k += 1;
        }
        assert(bytes@.take(i + 1).drop_last() =~= bytes@.take(i as int));
        c = x;
        i += 1;
    }
    assert(bytes@.take(i as int) =~= bytes@);
    c ^ 0xFFFF_FFFF
}

} // verus!
