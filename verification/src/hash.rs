//! A stable 64-bit content hash (FNV-1a) used to derive issue fingerprints.
//!
//! The fingerprint only has to be deterministic within a run and stable in
//! the hashed bytes, so the whole algorithm is defined here as a spec
//! function and implemented by verified code.

use vstd::prelude::*;

verus! {

/// FNV-1a 64-bit offset basis.
pub const FNV_OFFSET_BASIS: u64 = 0xcbf2_9ce4_8422_2325;

/// FNV-1a 64-bit prime.
pub const FNV_PRIME: u64 = 0x0000_0100_0000_01b3;

/// One FNV-1a round: fold a single byte into the hash state.
pub open spec fn fnv_step(state: u64, byte: u8) -> u64 {
    vstd::wrapping::u64_specs::wrapping_mul(state ^ (byte as u64), FNV_PRIME)
}

/// Fold a whole byte sequence into the hash state, front to back.
pub open spec fn fnv_bytes(state: u64, bytes: Seq<u8>) -> u64
    decreases bytes.len(),
{
    if bytes.len() == 0 {
        state
    } else {
        fnv_bytes(fnv_step(state, bytes[0]), bytes.drop_first())
    }
}

/// Fold one byte into the hash state.
pub fn fnv_extend_byte(state: u64, byte: u8) -> (r: u64)
    ensures
        r == fnv_step(state, byte),
{
    (state ^ (byte as u64)).wrapping_mul(FNV_PRIME)
}

/// Fold a byte slice into the hash state.
pub fn fnv_extend(state: u64, bytes: &[u8]) -> (r: u64)
    ensures
        r == fnv_bytes(state, bytes@),
{
    let mut st = state;
    let mut i: usize = 0;
    proof {
        assert(bytes@.skip(0) =~= bytes@);
    }
    while i < bytes.len()
        invariant
            i <= bytes@.len(),
            fnv_bytes(state, bytes@) == fnv_bytes(st, bytes@.skip(i as int)),
        decreases bytes@.len() - i,
    {
        proof {
            assert(bytes@.skip(i as int)[0] == bytes@[i as int]);
            assert(bytes@.skip(i as int).drop_first() =~= bytes@.skip(i + 1));
        }
        st = fnv_extend_byte(st, bytes[i]);
        i = i + 1;
    }
    st
}

} // verus!
