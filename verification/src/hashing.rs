//! The hash that spreads questions and names over the slots of a table.

use vstd::prelude::*;

verus! {

/// Where the hash starts.
pub const HASH_START: u64 = 0xcbf2_9ce4_8422_2325;

/// What the hash is multiplied by at each byte.
pub const HASH_FACTOR: u64 = 0x100_0000_01b3;

/// The hash after one more byte: the byte is mixed in, then the product with
/// the factor is cut to 64 bits.
pub open spec fn hash_step(h: u64, b: u8) -> u64 {
    (((h ^ (b as u64)) as int * HASH_FACTOR) % 0x1_0000_0000_0000_0000) as u64
}

/// The hash of a byte sequence, taken byte by byte from the front.
pub open spec fn hash_of(bytes: Seq<u8>) -> u64
    decreases bytes.len(),
{
    if bytes.len() == 0 {
        HASH_START
    } else {
        hash_step(hash_of(bytes.drop_last()), bytes.last())
    }
}

/// The slot of a table of `slots` slots that a hash falls in.
pub open spec fn slot_of(h: u64, slots: nat) -> int {
    h as int % slots as int
}

/// Mixes one more byte into a hash.
pub fn hash_more(h: u64, b: u8) -> (out: u64)
    ensures
        out == hash_step(h, b),
{
    (h ^ (b as u64)).wrapping_mul(HASH_FACTOR)
}

/// Hashes a byte sequence.
pub fn hash_bytes(bytes: &[u8]) -> (h: u64)
    ensures
        h == hash_of(bytes@),
{
    let mut h: u64 = HASH_START;
    let mut i: usize = 0;
    while i < bytes.len()
        invariant
            i <= bytes@.len(),
            h == hash_of(bytes@.take(i as int)),
        decreases bytes@.len() - i,
    {
        proof {
            assert(bytes@.take(i + 1).drop_last() =~= bytes@.take(i as int));
        }
        h = hash_more(h, bytes[i]);
        i = i + 1;
    }
    assert(bytes@.take(i as int) =~= bytes@);
    h
}

/// Finds the slot that a hash falls in.
pub fn slot_index(h: u64, slots: usize) -> (at: usize)
    requires
        slots > 0,
    ensures
        at == slot_of(h, slots as nat),
        at < slots,
{
    (h % (slots as u64)) as usize
}

} // verus!
