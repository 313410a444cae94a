//! CRC-32 (IEEE 802.3, reflected).

use vstd::prelude::*;

verus! {

/// One bit of the division.
pub open spec fn crc_bit(c: u32) -> u32 {
    if c & 1 == 1 {
        (c >> 1) ^ 0xedb8_8320
    } else {
        c >> 1
    }
}

/// `n` bits of the division.
pub open spec fn crc_bits(c: u32, n: nat) -> u32
    decreases n,
{
    if n == 0 {
        c
    } else {
        crc_bit(crc_bits(c, (n - 1) as nat))
    }
}

/// The register after some bytes.
pub open spec fn crc_register(b: Seq<u8>) -> u32
    decreases b.len(),
{
    if b.len() == 0 {
        0xffff_ffff
    } else {
        crc_bits(crc_register(b.drop_last()) ^ (b.last() as u32), 8)
    }
}

/// The CRC-32 of some bytes.
pub open spec fn crc_of(b: Seq<u8>) -> u32 {
    crc_register(b) ^ 0xffff_ffff
}

/// The CRC-32 of some bytes.
pub fn crc32(b: &[u8]) -> (r: u32)
    ensures
        r == crc_of(b@),
{
    let mut c: u32 = 0xffff_ffff;
    let mut i: usize = 0;
    assert(b@.take(0) =~= Seq::<u8>::empty());
    while i < b.len()
        invariant
            i <= b.len(),
            c == crc_register(b@.take(i as int)),
        decreases b.len() - i,
    {
        assert(b@.take(i + 1).drop_last() =~= b@.take(i as int));
        let start: u32 = c ^ (b[i] as u32);
        c = start;
        let mut k: u32 = 0;
        while k < 8
            invariant
                k <= 8,
                c == crc_bits(start, k as nat),
            decreases 8 - k,
        {
            if c & 1 == 1 {
                c = (c >> 1) ^ 0xedb8_8320;
            } else {
                c = c >> 1;
            }
            k += 1;
        }
        i += 1;
    }
    assert(b@.take(i as int) =~= b@);
    c ^ 0xffff_ffff
}

} // verus!
