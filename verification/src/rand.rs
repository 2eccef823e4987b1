//! The pseudo-random step of the fuzzers: FxHash of the seed.
use vstd::prelude::*;
use std::hash::Hash;
use std::hash::Hasher;

verus! {

/// What a fresh `rustc_hash::FxHasher` yields after hashing one `u64`: on targets
/// with 64-bit pointers the value times `0x517cc1b727220a95`; on targets with 32-bit
/// pointers the low and then the high half mixed in, each by rotating the state left
/// by 5, xor-ing the half in and multiplying by `0x9e3779b9`; all wrapping.
pub open spec fn fx_hash_u64(value: u64) -> u64 {
    if usize::BITS == 64 {
        ((value as int * 0x517cc1b727220a95int) % 0x1_0000_0000_0000_0000int) as u64
    } else {
        let lo = (value % 0x1_0000_0000) as u32;
        let hi = (value / 0x1_0000_0000) as u32;
        let h1 = ((lo as int * 0x9e3779b9int) % 0x1_0000_0000int) as u32;
        let rot = (h1 << 5u32) | (h1 >> 27u32);
        (((rot ^ hi) as int * 0x9e3779b9int) % 0x1_0000_0000int) as u64
    }
}

/// Hashes `value` with a fresh `rustc_hash::FxHasher` (`Hash::hash` of a `u64`, then
/// `Hasher::finish`). The contract restates what the source of rustc-hash 1.1.0 does:
/// the state starts at 0, `write_u64` mixes the value in as one word on 64-bit targets
/// and as two halves on 32-bit ones, and `finish` returns the state.
#[verifier::external_body]
pub(crate) fn fx_hash_of(value: u64) -> (h: u64)
    ensures
        h == fx_hash_u64(value),
{
    let mut hasher = rustc_hash::FxHasher::default();
    value.hash(&mut hasher);
    hasher.finish()
}

} // verus!
