use vstd::prelude::*;

verus! {

/// Offset basis of the 32-bit FNV-1a hash.
pub const FNV_OFFSET: u32 = 2166136261u32;

/// Prime multiplier of the 32-bit FNV-1a hash.
pub const FNV_PRIME: u32 = 16777619u32;

/// Multiplier of the final mixing round.
pub const MIX_PRIME: u32 = 0x85eb_ca6bu32;

/// One FNV-1a round: xor in the byte, then multiply, wrapping at 32 bits.
pub open spec fn fnv_step(h: u32, b: u8) -> u32 {
    (h ^ (b as u32)).wrapping_mul(FNV_PRIME)
}

/// The FNV-1a state after all bytes of `s` have been absorbed.
pub open spec fn fnv_fold(s: Seq<u8>) -> u32
    decreases s.len(),
{
    if s.len() == 0 {
        FNV_OFFSET
    } else {
        fnv_step(fnv_fold(s.drop_last()), s.last())
    }
}

/// Final avalanche: folds the high bits into the low ones, so that the top
/// bits (which select the first probe) depend on every input byte.
pub open spec fn mix(h: u32) -> u32 {
    let a = h ^ (h >> 15u32);
    let b = a.wrapping_mul(MIX_PRIME);
    b ^ (b >> 13u32)
}

/// The hash of a byte string.
pub open spec fn hash_of(s: Seq<u8>) -> u32 {
    mix(fnv_fold(s))
}

/// FNV-1a over the bytes, followed by a mixing round.
pub fn fnv32a_yoshimitsu_hasher(bytes: &[u8]) -> (r: u32)
    ensures
        r == hash_of(bytes@),
{
    let mut h: u32 = FNV_OFFSET;
    let mut i: usize = 0;
    while i < bytes.len()
        invariant
            i <= bytes@.len(),
            h == fnv_fold(bytes@.subrange(0, i as int)),
        decreases bytes@.len() - i,
    {
        proof {
            assert(bytes@.subrange(0, i + 1).drop_last() =~= bytes@.subrange(0, i as int));
        }
        h = (h ^ (bytes[i] as u32)).wrapping_mul(FNV_PRIME);
        i += 1;
    }
    proof {
        assert(bytes@.subrange(0, i as int) =~= bytes@);
    }
    let a = h ^ (h >> 15u32);
    let b = a.wrapping_mul(MIX_PRIME);
    b ^ (b >> 13u32)
}

} // verus!
