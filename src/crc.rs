use vstd::prelude::*;

use crate::device::Device;
use crate::error::Error;

verus! {

/// One shift of the CRC register, LSB first, with the reflected polynomial
/// x^8 + x^5 + x^4 + 1 (feedback byte 0x8C).
pub open spec fn crc8_shift(c: u8) -> u8 {
    if c & 1 == 1 {
        (c >> 1) ^ 0x8C
    } else {
        c >> 1
    }
}

/// `n` shifts of the CRC register.
pub open spec fn crc8_shifts(c: u8, n: nat) -> u8
    decreases n,
{
    if n == 0 {
        c
    } else {
        crc8_shifts(crc8_shift(c), (n - 1) as nat)
    }
}

/// The register after feeding one byte into it.
pub open spec fn crc8_update(crc: u8, byte: u8) -> u8 {
    crc8_shifts(crc ^ byte, 8)
}

/// The Dallas/Maxim CRC-8 of a byte sequence, starting from 0.
pub open spec fn crc8(s: Seq<u8>) -> u8
    decreases s.len(),
{
    if s.len() == 0 {
        0
    } else {
        crc8_update(crc8(s.drop_last()), s.last())
    }
}

proof fn lemma_shift_injective(x: u8, y: u8)
    requires
        crc8_shift(x) == crc8_shift(y),
    ensures
        x == y,
{
    if x & 1 == 1 && y & 1 == 1 {
        assert(((x >> 1) ^ 0x8C == (y >> 1) ^ 0x8C && x & 1 == 1 && y & 1 == 1) ==> x == y)
            by (bit_vector);
    } else if x & 1 == 1 {
        assert(((x >> 1) ^ 0x8C == y >> 1 && x & 1 == 1 && y & 1 == 0) ==> x == y)
            by (bit_vector);
        assert(y & 1 != 1 ==> y & 1 == 0) by (bit_vector);
    } else if y & 1 == 1 {
        assert((x >> 1 == (y >> 1) ^ 0x8C && x & 1 == 0 && y & 1 == 1) ==> x == y)
            by (bit_vector);
        assert(x & 1 != 1 ==> x & 1 == 0) by (bit_vector);
    } else {
        assert((x >> 1 == y >> 1 && x & 1 == 0 && y & 1 == 0) ==> x == y) by (bit_vector);
        assert(x & 1 != 1 ==> x & 1 == 0) by (bit_vector);
        assert(y & 1 != 1 ==> y & 1 == 0) by (bit_vector);
    }
}

proof fn lemma_shifts_injective(x: u8, y: u8, n: nat)
    requires
        crc8_shifts(x, n) == crc8_shifts(y, n),
    ensures
        x == y,
    decreases n,
{
    if n > 0 {
        lemma_shifts_injective(crc8_shift(x), crc8_shift(y), (n - 1) as nat);
        lemma_shift_injective(x, y);
    }
}

/// Feeding a byte into the register loses nothing: two registers, or two
/// bytes, that differ give different results.
proof fn lemma_update_injective(c1: u8, b1: u8, c2: u8, b2: u8)
    requires
        crc8_update(c1, b1) == crc8_update(c2, b2),
        c1 == c2 || b1 == b2,
    ensures
        c1 == c2 && b1 == b2,
{
    lemma_shifts_injective(c1 ^ b1, c2 ^ b2, 8);
    assert((c1 ^ b1 == c2 ^ b2 && c1 == c2) ==> b1 == b2) by (bit_vector);
    assert((c1 ^ b1 == c2 ^ b2 && b1 == b2) ==> c1 == c2) by (bit_vector);
}

/// The CRC-8 detects every change of a single byte: two sequences of one
/// length that differ in exactly one position have different checksums.
pub proof fn lemma_crc8_detects_single_byte_change(s: Seq<u8>, t: Seq<u8>, k: int)
    requires
        s.len() == t.len(),
        0 <= k < s.len(),
        s[k] != t[k],
        forall|i: int| 0 <= i < s.len() && i != k ==> s[i] == t[i],
    ensures
        crc8(s) != crc8(t),
    decreases s.len(),
{
    let n = s.len() - 1;
    if k == n {
        assert(s.drop_last() =~= t.drop_last());
    } else {
        lemma_crc8_detects_single_byte_change(s.drop_last(), t.drop_last(), k);
    }
    if crc8(s) == crc8(t) {
        lemma_update_injective(crc8(s.drop_last()), s.last(), crc8(t.drop_last()), t.last());
    }
}

/// One byte fed into the register, bit by bit.
pub(crate) fn crc8_feed(crc: u8, byte: u8) -> (r: u8)
    ensures
        r == crc8_update(crc, byte),
{
    let mut c: u8 = crc ^ byte;
    let mut i: u8 = 0;
    while i < 8
        invariant
            i <= 8,
            crc8_shifts(c, (8 - i) as nat) == crc8_update(crc, byte),
        decreases 8 - i,
    {
        if c & 1 == 1 {
            c = (c >> 1) ^ 0x8C;
        } else {
            c = c >> 1;
        }
        i = i + 1;
    }
    c
}

/// The CRC-8 of a device's address followed by `data`.
pub fn compute_crc8(device: &Device, data: &[u8]) -> (r: u8)
    ensures
        r == crc8(device.address@ + data@),
{
    let mut acc: u8 = 0;
    let mut i: usize = 0;
    while i < 8
        invariant
            i <= 8,
            device.address@.len() == 8,
            acc == crc8(device.address@.take(i as int)),
        decreases 8 - i,
    {
        assert(device.address@.take(i + 1).drop_last() =~= device.address@.take(i as int));
        acc = crc8_feed(acc, device.address[i]);
        i = i + 1;
    }
    assert(device.address@.take(8) =~= device.address@);
    let ghost whole = device.address@ + data@;
    assert(whole.take(8) =~= device.address@);
    let mut j: usize = 0;
    while j < data.len()
        invariant
            j <= data@.len(),
            device.address@.len() == 8,
            whole == device.address@ + data@,
            acc == crc8(whole.take(8 + j)),
        decreases data@.len() - j,
    {
        assert(whole.take(8 + j + 1).drop_last() =~= whole.take(8 + j));
        assert(whole[8 + j] == data@[j as int]);
        acc = crc8_feed(acc, data[j]);
        j = j + 1;
    }
    assert(whole.take(8 + j) =~= whole);
    acc
}

/// Checks that `crc8` is the CRC-8 of the device's address followed by
/// `data`, and reports both values when it is not.
pub fn ensure_correct_rcr8<E>(device: &Device, data: &[u8], crc8: u8) -> (r: Result<(), Error<E>>)
    ensures
        r is Ok <==> crate::crc::crc8(device.address@ + data@) == crc8,
        r is Err ==> r == Err::<(), Error<E>>(
            Error::CrcMismatch { computed: crate::crc::crc8(device.address@ + data@), expected: crc8 },
        ),
{
    let computed = compute_crc8(device, data);
    if computed != crc8 {
        Err(Error::CrcMismatch { computed, expected: crc8 })
    } else {
        Ok(())
    }
}

} // verus!
