//! CRC-8 in the Dallas/1-Wire (MAXIM) configuration, used by the POESerial
//! protocol to checksum the concatenation of a packet's header, argument and
//! value fields.

use vstd::prelude::*;

verus! {

/// One shift round of the checksum: mix the low bit of `b` into `crc`.
pub open spec fn crc8_round(crc: u8, b: u8) -> u8 {
    if (crc ^ b) & 1 != 0 {
        (crc >> 1) ^ 0x8c
    } else {
        crc >> 1
    }
}

/// `n` successive shift rounds, consuming the low bits of `b`.
pub open spec fn crc8_rounds(crc: u8, b: u8, n: nat) -> u8
    decreases n,
{
    if n == 0 {
        crc
    } else {
        crc8_rounds(crc8_round(crc, b), b >> 1, (n - 1) as nat)
    }
}

/// The checksum state after absorbing one whole byte.
pub open spec fn crc8_update(crc: u8, b: u8) -> u8 {
    crc8_rounds(crc, b, 8)
}

/// The checksum state after absorbing every byte of `s`, starting from `crc`.
pub open spec fn crc8_acc(crc: u8, s: Seq<u8>) -> u8
    decreases s.len(),
{
    if s.len() == 0 {
        crc
    } else {
        crc8_acc(crc8_update(crc, s[0]), s.subrange(1, s.len() as int))
    }
}

/// CRC-8/MAXIM of a byte sequence: fold from the zero state.
pub open spec fn crc8_of(s: Seq<u8>) -> u8 {
    crc8_acc(0, s)
}

/// Compute the CRC-8/MAXIM checksum of `data`.
pub fn crc8(data: &[u8]) -> (r: u8)
    ensures
        r == crc8_of(data@),
{
    let mut crc: u8 = 0;
    let mut i: usize = 0;
    proof {
        assert(data@.subrange(0, data@.len() as int) =~= data@);
    }
    while i < data.len()
        invariant
            i <= data.len(),
            crc8_acc(crc, data@.subrange(i as int, data@.len() as int)) == crc8_of(data@),
        decreases data.len() - i,
    {
        let b = data[i];
        let mut extract: u8 = b;
        let mut k: usize = 0;
        let crc_start = crc;
        while k < 8
            invariant
                k <= 8,
                crc8_rounds(crc, extract, (8 - k) as nat) == crc8_update(crc_start, b),
            decreases 8 - k,
        {
            if (crc ^ extract) & 1 != 0 {
                crc = (crc >> 1) ^ 0x8c;
            } else {
                crc = crc >> 1;
            }
            extract = extract >> 1;
            k = k + 1;
        }
        proof {
            assert(data@.subrange(i as int, data@.len() as int)[0] == b);
            assert(data@.subrange(i as int, data@.len() as int).subrange(
                1,
                data@.len() - i,
            ) =~= data@.subrange(i + 1, data@.len() as int));
        }
        i = i + 1;
    }
    proof {
        assert(data@.subrange(data@.len() as int, data@.len() as int) =~= Seq::<u8>::empty());
    }
    crc
}

} // verus!
