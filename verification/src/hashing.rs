//! Digests and the byte framing that canonical forms are built from.
//!
//! The digest is the 64-bit FNV-1a function: every byte is xor-ed into the
//! state, which is then multiplied by a fixed prime modulo 2^64. It tells
//! content apart and shows damage. It does not withstand an adversary: two
//! contents with one digest can be found, so a digest proves nothing about
//! who made the content.

use vstd::bytes::{spec_u64_to_le_bytes, u64_to_le_bytes};
use vstd::prelude::*;

verus! {

/// A content digest. Equality is equality of the number.
pub type Hash = u64;

/// The state a digest starts from.
pub const DIGEST_BASIS: u64 = 0xcbf2_9ce4_8422_2325;

/// The multiplier applied after each byte.
pub const DIGEST_PRIME: u64 = 0x0000_0100_0000_01b3;

/// The state after one more byte.
pub open spec fn absorb(state: u64, byte: u8) -> u64 {
    (state ^ (byte as u64)).wrapping_mul(DIGEST_PRIME)
}

/// The state after all of `bytes`, first byte first.
pub open spec fn digest_from(state: u64, bytes: Seq<u8>) -> u64
    decreases bytes.len(),
{
    if bytes.len() == 0 {
        state
    } else {
        absorb(digest_from(state, bytes.drop_last()), bytes.last())
    }
}

/// The digest of a byte string.
pub open spec fn digest_of(bytes: Seq<u8>) -> Hash {
    digest_from(DIGEST_BASIS, bytes)
}

/// A byte string behind its own length, so that where it ends can be read
/// off what came before it.
pub open spec fn framed(bytes: Seq<u8>) -> Seq<u8> {
    spec_u64_to_le_bytes(bytes.len() as u64) + bytes
}

/// The digests of `hashes` in order, eight bytes each.
pub open spec fn hashes_bytes(hashes: Seq<Hash>) -> Seq<u8>
    decreases hashes.len(),
{
    if hashes.len() == 0 {
        Seq::empty()
    } else {
        hashes_bytes(hashes.drop_last()) + spec_u64_to_le_bytes(hashes.last())
    }
}

/// Computes the digest of `bytes`.
pub fn digest(bytes: &[u8]) -> (h: Hash)
    ensures
        h == digest_of(bytes@),
{
    let mut state: u64 = DIGEST_BASIS;
    let mut i: usize = 0;
    while i < bytes.len()
        invariant
            i <= bytes@.len(),
            state == digest_from(DIGEST_BASIS, bytes@.take(i as int)),
        decreases bytes@.len() - i,
    {
        assert(bytes@.take(i + 1).drop_last() == bytes@.take(i as int));
        state = (state ^ (bytes[i] as u64)).wrapping_mul(DIGEST_PRIME);
        i += 1;
    }
    assert(bytes@.take(i as int) == bytes@);
    state
}

/// Appends `bytes` to `out`.
pub fn push_bytes(out: &mut Vec<u8>, bytes: &[u8])
    ensures
        final(out)@ == old(out)@ + bytes@,
{
    let mut i: usize = 0;
    while i < bytes.len()
        invariant
            i <= bytes@.len(),
            out@ == old(out)@ + bytes@.take(i as int),
        decreases bytes@.len() - i,
    {
        out.push(bytes[i]);
        assert(bytes@.take(i + 1) == bytes@.take(i as int).push(bytes@[i as int]));
        i += 1;
    }
    assert(bytes@.take(i as int) == bytes@);
}

/// Appends `bytes` to `out`, behind its length.
pub fn push_framed(out: &mut Vec<u8>, bytes: &[u8])
    ensures
        final(out)@ == old(out)@ + framed(bytes@),
{
    let len = u64_to_le_bytes(bytes.len() as u64);
    push_bytes(out, len.as_slice());
    push_bytes(out, bytes);
}

/// Appends the digests of `hashes` to `out`, eight bytes each.
pub fn push_hashes(out: &mut Vec<u8>, hashes: &Vec<Hash>)
    ensures
        final(out)@ == old(out)@ + hashes_bytes(hashes@),
{
    let mut i: usize = 0;
    assert(hashes_bytes(hashes@.take(0)) == Seq::<u8>::empty());
    while i < hashes.len()
        invariant
            i <= hashes@.len(),
            out@ == old(out)@ + hashes_bytes(hashes@.take(i as int)),
        decreases hashes@.len() - i,
    {
        let word = u64_to_le_bytes(hashes[i]);
        push_bytes(out, word.as_slice());
        assert(hashes@.take(i + 1).drop_last() == hashes@.take(i as int));
        i += 1;
    }
    assert(hashes@.take(i as int) == hashes@);
}

} // verus!
