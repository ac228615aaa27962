//! Integrity checks used by the Fineoffset family and the Toyota TPMS.

use vstd::prelude::*;

verus! {

/// One bit of CRC-8 long division (no reflection): shift left, and subtract
/// (xor) the polynomial when the top bit falls out.
pub open spec fn crc_step(rem: u8, poly: u8) -> u8 {
    if rem & 0x80u8 != 0 {
        ((rem << 1u8) ^ poly) as u8
    } else {
        (rem << 1u8) as u8
    }
}

/// `k` division steps.
pub open spec fn crc_shift(rem: u8, poly: u8, k: nat) -> u8
    decreases k,
{
    if k == 0 {
        rem
    } else {
        crc_step(crc_shift(rem, poly, (k - 1) as nat), poly)
    }
}

/// CRC-8, MSB first, with the given polynomial, starting from remainder
/// `rem`, no reflection and no final xor.
pub open spec fn spec_crc8(bytes: Seq<u8>, poly: u8, rem: u8) -> u8
    decreases bytes.len(),
{
    if bytes.len() == 0 {
        rem
    } else {
        spec_crc8(bytes.drop_first(), poly, crc_shift(rem ^ bytes[0], poly, 8))
    }
}

/// Sum of the bytes (as a natural number, no wrapping).
pub open spec fn byte_sum(bytes: Seq<u8>) -> nat
    decreases bytes.len(),
{
    if bytes.len() == 0 {
        0
    } else {
        byte_sum(bytes.drop_last()) + bytes.last() as nat
    }
}

/// Xor of the bytes.
pub open spec fn byte_xor(bytes: Seq<u8>) -> u8
    decreases bytes.len(),
{
    if bytes.len() == 0 {
        0u8
    } else {
        byte_xor(bytes.drop_last()) ^ bytes.last()
    }
}

/// CRC-8 with the given polynomial and init, no reflection, no final xor
/// (rtl_433's `crc8`). Fineoffset uses polynomial 0x31, init 0x00.
pub fn crc8(bytes: &[u8], poly: u8, init: u8) -> (r: u8)
    ensures
        r == spec_crc8(bytes@, poly, init),
{
    let mut rem = init;
    let mut i: usize = 0;
    assert(bytes@.skip(0) =~= bytes@);
    while i < bytes.len()
        invariant
            i <= bytes.len(),
            spec_crc8(bytes@.skip(i as int), poly, rem) == spec_crc8(bytes@, poly, init),
        decreases bytes.len() - i,
    {
        let ghost rest = bytes@.skip(i as int);
        rem = rem ^ bytes[i];
        let ghost start = rem;
        let mut k: usize = 0;
        while k < 8
            invariant
                k <= 8,
                rem == crc_shift(start, poly, k as nat),
            decreases 8 - k,
        {
            rem = if rem & 0x80 != 0 {
                (rem << 1) ^ poly
            } else {
                rem << 1
            };
            k = k + 1;
        }
        proof {
            assert(rest[0] == bytes@[i as int]);
            assert(rest.drop_first() =~= bytes@.skip(i + 1));
        }
        i = i + 1;
    }
    proof {
        assert(bytes@.skip(i as int) =~= Seq::<u8>::empty());
    }
    rem
}

/// Fineoffset's CRC-8 (poly 0x31, init 0).
pub fn crc8_fineoffset(bytes: &[u8]) -> (r: u8)
    ensures
        r == spec_crc8(bytes@, 0x31, 0),
{
    crc8(bytes, 0x31, 0x00)
}

/// Byte sum modulo 256.
pub fn sum8(bytes: &[u8]) -> (r: u8)
    ensures
        r == byte_sum(bytes@) % 256,
{
    let mut a: u8 = 0;
    let mut i: usize = 0;
    while i < bytes.len()
        invariant
            i <= bytes.len(),
            a == byte_sum(bytes@.take(i as int)) % 256,
        decreases bytes.len() - i,
    {
        let ghost before = bytes@.take(i as int);
        let ghost after = bytes@.take(i + 1);
        proof {
            assert(after.drop_last() =~= before);
            assert(after.last() == bytes@[i as int]);
            vstd::arithmetic::div_mod::lemma_add_mod_noop(byte_sum(before) as int, bytes@[i as int] as int, 256);
        }
        a = a.wrapping_add(bytes[i]);
        i = i + 1;
    }
    assert(bytes@.take(i as int) =~= bytes@);
    a
}

/// XOR of all bytes.
pub fn xor8(bytes: &[u8]) -> (r: u8)
    ensures
        r == byte_xor(bytes@),
{
    let mut a: u8 = 0;
    let mut i: usize = 0;
    while i < bytes.len()
        invariant
            i <= bytes.len(),
            a == byte_xor(bytes@.take(i as int)),
        decreases bytes.len() - i,
    {
        proof {
            assert(bytes@.take(i + 1).drop_last() =~= bytes@.take(i as int));
        }
        a = a ^ bytes[i];
        i = i + 1;
    }
    assert(bytes@.take(i as int) =~= bytes@);
    a
}

// ---------------------------------------------------------------------------
// Laws

/// The CRC of a concatenation continues from the CRC of its first part.
pub proof fn lemma_crc8_append(a: Seq<u8>, b: Seq<u8>, poly: u8, rem: u8)
    ensures
        spec_crc8(a + b, poly, rem) == spec_crc8(b, poly, spec_crc8(a, poly, rem)),
    decreases a.len(),
{
    if a.len() == 0 {
        assert(a + b =~= b);
    } else {
        assert((a + b).drop_first() =~= a.drop_first() + b);
        assert((a + b)[0] == a[0]);
        lemma_crc8_append(a.drop_first(), b, poly, crc_shift(rem ^ a[0], poly, 8));
    }
}

/// Long division of a zero remainder stays zero.
proof fn lemma_crc_shift_zero(poly: u8, k: nat)
    ensures
        crc_shift(0, poly, k) == 0,
    decreases k,
{
    if k > 0 {
        lemma_crc_shift_zero(poly, (k - 1) as nat);
        assert(0u8 & 0x80u8 == 0u8) by (bit_vector);
        assert((0u8 << 1u8) as u8 == 0u8) by (bit_vector);
    }
}

/// A frame that ends with its own CRC (computed with the same polynomial and
/// init) has CRC zero: this is what "CRC over payload and CRC byte must be 0"
/// checks.
pub proof fn lemma_crc8_trailer_zero(data: Seq<u8>, poly: u8, init: u8)
    ensures
        spec_crc8(data.push(spec_crc8(data, poly, init)), poly, init) == 0,
{
    let c = spec_crc8(data, poly, init);
    assert(data.push(c) =~= data + seq![c]);
    lemma_crc8_append(data, seq![c], poly, init);
    assert(c ^ c == 0u8) by (bit_vector);
    assert(seq![c].drop_first() =~= Seq::<u8>::empty());
    lemma_crc_shift_zero(poly, 8);
    assert(spec_crc8(seq![c], poly, c) == spec_crc8(Seq::<u8>::empty(), poly, crc_shift(c ^ c, poly, 8)));
}

/// A frame that ends with the xor of the rest xors to zero.
pub proof fn lemma_xor8_trailer_zero(data: Seq<u8>)
    ensures
        byte_xor(data.push(byte_xor(data))) == 0,
{
    let c = byte_xor(data);
    assert(data.push(c).drop_last() =~= data);
    assert(c ^ c == 0u8) by (bit_vector);
}

} // verus!
