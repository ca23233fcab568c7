//! CRC-32 checksum.
//!
//! The checksum of the file header is the CRC-32 of IEEE 802.3: the
//! bytes are taken in order and each bit of them, lowest first, through a
//! shift register of 32 bits that starts with every bit set, with the
//! polynomial `0xEDB88320`; the checksum is the register with every bit
//! turned over.
//!
//! Two byte strings of one length that differ in a single byte have
//! different checksums: a step of the register loses nothing.
use vstd::prelude::*;

verus! {

/// The register after one bit: shifted down by one, and combined with the
/// polynomial where the bit that left was set.
pub open spec fn crc_shift(state: u32) -> u32 {
    if state & 1 == 1 {
        (state >> 1) ^ 0xEDB8_8320
    } else {
        state >> 1
    }
}

/// The register after `n` bits.
pub open spec fn crc_shifts(state: u32, n: nat) -> u32
    decreases n,
{
    if n == 0 {
        state
    } else {
        crc_shift(crc_shifts(state, (n - 1) as nat))
    }
}

/// The register after the byte `b`.
pub open spec fn crc_feed(state: u32, b: u8) -> u32 {
    crc_shifts(state ^ (b as u32), 8)
}

/// The register after the bytes of `bytes`.
pub open spec fn crc_state(bytes: Seq<u8>) -> u32
    decreases bytes.len(),
{
    if bytes.len() == 0 {
        0xFFFF_FFFF
    } else {
        crc_feed(crc_state(bytes.drop_last()), bytes.last())
    }
}

/// The CRC-32 checksum of a byte string.
pub open spec fn crc32(bytes: Seq<u8>) -> u32 {
    crc_state(bytes) ^ 0xFFFF_FFFF
}

/// Calls `crc32fast::hash`, which its crate documents as the CRC32 (IEEE)
/// checksum of the slice: the checksum that `crc32` defines. The
/// contract is taken on trust; `crc32_bitwise` is proved against the
/// same definition, and can be held against this function.
#[verifier::external_body]
pub(crate) fn checksum(buf: &[u8]) -> (r: u32)
    ensures
        r == crc32(buf@),
{
    crc32fast::hash(buf)
}

/// The CRC-32 checksum of a byte string, computed bit by bit: slow, and
/// proved to be the checksum.
pub fn crc32_bitwise(buf: &[u8]) -> (r: u32)
    ensures
        r == crc32(buf@),
{
    let mut state: u32 = 0xFFFF_FFFF;
    let mut i: usize = 0;
    while i < buf.len()
        invariant
            i <= buf@.len(),
            state == crc_state(buf@.take(i as int)),
        decreases buf@.len() - i,
    {
        let byte = buf[i];
        let mut x: u32 = state ^ (byte as u32);
        let mut k: usize = 0;
        while k < 8
            invariant
                k <= 8,
                x == crc_shifts(state ^ (byte as u32), k as nat),
            decreases 8 - k,
        {
            x = if x & 1 == 1 {
                (x >> 1) ^ 0xEDB8_8320
            } else {
                x >> 1
            };
            k += 1;
        }
        proof {
            let next = buf@.take(i + 1);
            assert(next.drop_last() =~= buf@.take(i as int));
            assert(next.last() == byte);
        }
        state = x;
        i += 1;
    }
    proof {
        assert(buf@.take(i as int) =~= buf@);
    }
    state ^ 0xFFFF_FFFF
}

/// A step of the register loses nothing: different registers stay
/// different.
proof fn lemma_shifts_differ(a: u32, b: u32, n: nat)
    requires
        a != b,
    ensures
        crc_shifts(a, n) != crc_shifts(b, n),
    decreases n,
{
    if n > 0 {
        lemma_shifts_differ(a, b, (n - 1) as nat);
        let x = crc_shifts(a, (n - 1) as nat);
        let y = crc_shifts(b, (n - 1) as nat);
        assert(x != y ==> (if x & 1 == 1 {
            (x >> 1) ^ 0xEDB8_8320u32
        } else {
            x >> 1
        }) != (if y & 1 == 1 {
            (y >> 1) ^ 0xEDB8_8320u32
        } else {
            y >> 1
        })) by (bit_vector);
    }
}

/// Different registers stay different after the same byte, and one
/// register becomes different ones after different bytes.
proof fn lemma_feed_differs(s: u32, t: u32, x: u8, y: u8)
    requires
        s != t && x == y || s == t && x != y,
    ensures
        crc_feed(s, x) != crc_feed(t, y),
{
    let a = x as u32;
    let b = y as u32;
    assert(s != t && a == b || s == t && a != b ==> s ^ a != t ^ b) by (bit_vector);
    lemma_shifts_differ(s ^ a, t ^ b, 8);
}

/// Two byte strings of one length that differ in the byte at `i` and in
/// no other have different checksums.
pub proof fn lemma_changed_byte_shows(a: Seq<u8>, b: Seq<u8>, i: int)
    requires
        a.len() == b.len(),
        0 <= i < a.len(),
        a[i] != b[i],
        forall|j: int| 0 <= j < a.len() && j != i ==> a[j] == b[j],
    ensures
        crc_state(a) != crc_state(b),
        crc32(a) != crc32(b),
    decreases a.len(),
{
    if i == a.len() - 1 {
        assert(a.drop_last() =~= b.drop_last());
    } else {
        lemma_changed_byte_shows(a.drop_last(), b.drop_last(), i);
    }
    lemma_feed_differs(crc_state(a.drop_last()), crc_state(b.drop_last()), a.last(), b.last());
    let s = crc_state(a);
    let t = crc_state(b);
    assert(s != t ==> s ^ 0xFFFF_FFFFu32 != t ^ 0xFFFF_FFFFu32) by (bit_vector);
}

} // verus!
