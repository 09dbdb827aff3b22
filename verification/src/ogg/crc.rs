//! The Ogg page checksum.
//!
//! A direct (not reflected) CRC-32 with generator polynomial `0x04C11DB7`,
//! zero initial value and no final inversion. It is not the CRC-32 of zlib,
//! which reflects its input and inverts its output.

use vstd::prelude::*;

verus! {

/// Generator polynomial, without its leading term.
pub const POLY: u32 = 0x04C1_1DB7;

/// The register after one bit has been shifted out of it.
pub open spec fn shifted(r: u32) -> u32 {
    if r & 0x8000_0000 != 0 {
        (r << 1u32) ^ POLY
    } else {
        r << 1u32
    }
}

/// The register after `n` bits have been shifted out of it.
pub open spec fn shifted_by(r: u32, n: nat) -> u32
    decreases n,
{
    if n == 0 {
        r
    } else {
        shifted(shifted_by(r, (n - 1) as nat))
    }
}

/// The checksum register after `data`, from the register `crc`: each byte is
/// added at the top and its eight bits are shifted out.
pub open spec fn crc_of(crc: u32, data: Seq<u8>) -> u32
    decreases data.len(),
{
    if data.len() == 0 {
        crc
    } else {
        shifted_by(crc_of(crc, data.drop_last()) ^ ((data.last() as u32) << 24u32), 8)
    }
}

/// The checksum of a text can be computed piece by piece.
pub proof fn law_incremental(crc: u32, a: Seq<u8>, b: Seq<u8>)
    ensures
        crc_of(crc_of(crc, a), b) == crc_of(crc, a + b),
    decreases b.len(),
{
    if b.len() == 0 {
        assert(a + b =~= a);
    } else {
        law_incremental(crc, a, b.drop_last());
        assert((a + b).drop_last() =~= a + b.drop_last());
    }
}

/// The bytewise sum of two texts of the same length, without carries.
pub open spec fn summed(x: Seq<u8>, y: Seq<u8>) -> Seq<u8> {
    Seq::new(x.len(), |i: int| x[i] ^ y[i])
}

proof fn lemma_shifted_linear(a: u32, b: u32, n: nat)
    ensures
        shifted_by(a ^ b, n) == shifted_by(a, n) ^ shifted_by(b, n),
    decreases n,
{
    if n > 0 {
        lemma_shifted_linear(a, b, (n - 1) as nat);
        let x = shifted_by(a, (n - 1) as nat);
        let y = shifted_by(b, (n - 1) as nat);
        assert(shifted(x ^ y) == shifted(x) ^ shifted(y)) by (bit_vector);
    }
}

/// The checksum is linear: that of a bytewise sum is the sum of the checksums.
pub proof fn law_linear(a: u32, b: u32, x: Seq<u8>, y: Seq<u8>)
    requires
        x.len() == y.len(),
    ensures
        crc_of(a ^ b, summed(x, y)) == crc_of(a, x) ^ crc_of(b, y),
    decreases x.len(),
{
    if x.len() > 0 {
        law_linear(a, b, x.drop_last(), y.drop_last());
        assert(summed(x, y).drop_last() =~= summed(x.drop_last(), y.drop_last()));
        let p = crc_of(a, x.drop_last());
        let q = crc_of(b, y.drop_last());
        let u = x.last();
        let v = y.last();
        assert((p ^ q) ^ (((u ^ v) as u32) << 24u32) == (p ^ ((u as u32) << 24u32)) ^ (q ^ ((
        v as u32) << 24u32))) by (bit_vector);
        lemma_shifted_linear(p ^ ((u as u32) << 24u32), q ^ ((v as u32) << 24u32), 8);
    }
}

proof fn lemma_shifted_apart(a: u32, b: u32, n: nat)
    requires
        a != b,
    ensures
        shifted_by(a, n) != shifted_by(b, n),
    decreases n,
{
    if n > 0 {
        lemma_shifted_apart(a, b, (n - 1) as nat);
        let x = shifted_by(a, (n - 1) as nat);
        let y = shifted_by(b, (n - 1) as nat);
        assert(x != y ==> shifted(x) != shifted(y)) by (bit_vector);
    }
}

/// Different registers stay different over the same text.
proof fn lemma_apart(a: u32, b: u32, data: Seq<u8>)
    requires
        a != b,
    ensures
        crc_of(a, data) != crc_of(b, data),
    decreases data.len(),
{
    if data.len() > 0 {
        lemma_apart(a, b, data.drop_last());
        let x = crc_of(a, data.drop_last());
        let y = crc_of(b, data.drop_last());
        let u = (data.last() as u32) << 24u32;
        assert(x != y ==> x ^ u != y ^ u) by (bit_vector);
        lemma_shifted_apart(x ^ u, y ^ u, 8);
    }
}

/// A change of one byte changes the checksum.
pub proof fn law_one_byte_counts(crc: u32, data: Seq<u8>, i: int, b: u8)
    requires
        0 <= i < data.len(),
        b != data[i],
    ensures
        crc_of(crc, data.update(i, b)) != crc_of(crc, data),
{
    let changed = data.update(i, b);
    let head = data.take(i + 1);
    let other = changed.take(i + 1);
    let tail = data.skip(i + 1);
    assert(head.drop_last() =~= other.drop_last());
    let r = crc_of(crc, head.drop_last());
    let u = data[i];
    assert(u != b ==> r ^ ((u as u32) << 24u32) != r ^ ((b as u32) << 24u32)) by (bit_vector);
    lemma_shifted_apart(r ^ ((u as u32) << 24u32), r ^ ((b as u32) << 24u32), 8);
    lemma_apart(crc_of(crc, head), crc_of(crc, other), tail);
    law_incremental(crc, head, tail);
    law_incremental(crc, other, tail);
    assert(head + tail =~= data);
    assert(other + tail =~= changed);
}

/// Computes the checksum of `data` starting from `crc` (zero for a fresh
/// page).
#[must_use]
pub fn update(crc: u32, data: &[u8]) -> (res: u32)
    ensures
        res == crc_of(crc, data@),
{
    let mut r = crc;
    let mut i: usize = 0;
    assert(data@.take(0) =~= Seq::<u8>::empty());
    while i < data.len()
        invariant
            i <= data@.len(),
            r == crc_of(crc, data@.take(i as int)),
        decreases data@.len() - i,
    {
        let ghost before = r;
        r = r ^ ((data[i] as u32) << 24u32);
        let ghost start = r;
        let mut bit: u32 = 0;
        while bit < 8
            invariant
                bit <= 8,
                r == shifted_by(start, bit as nat),
            decreases 8 - bit,
        {
            r = if r & 0x8000_0000 != 0 {
                (r << 1u32) ^ POLY
            } else {
                r << 1u32
            };
            bit = bit + 1;
        }
        assert(data@.take(i + 1).drop_last() =~= data@.take(i as int));
        i = i + 1;
    }
    assert(data@.take(i as int) =~= data@);
    r
}

} // verus!
