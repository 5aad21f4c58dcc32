//! The fast, deterministic 64-bit hash used for chain linkage and leader
//! election.  It is a pure function of its input bytes, so every node
//! computes the same value for the same data.

use vstd::prelude::*;
use crate::codec::enc_u64;

verus! {

pub const FNV_OFFSET: u64 = 0xcbf29ce484222325;

pub const FNV_PRIME: u64 = 0x100000001b3;

/// One mixing step: xor the byte in, multiply by the prime modulo 2^64.
pub open spec fn hash_step(h: u64, b: u8) -> u64 {
    vstd::wrapping::u64_specs::wrapping_mul(h ^ (b as u64), FNV_PRIME)
}

/// Hash of a byte sequence, folding `hash_step` from the left.
pub open spec fn spec_hash_bytes(s: Seq<u8>) -> u64
    decreases s.len(),
{
    if s.len() == 0 {
        FNV_OFFSET
    } else {
        hash_step(spec_hash_bytes(s.drop_last()), s.last())
    }
}

/// Hash of a `u64`, taken over its canonical byte encoding.
pub open spec fn spec_hash_u64(x: u64) -> u64 {
    spec_hash_bytes(enc_u64(x))
}

/// Computes `spec_hash_bytes` over the given bytes.
pub fn hash_bytes(v: &Vec<u8>) -> (r: u64)
    ensures
        r == spec_hash_bytes(v@),
{
    let mut h: u64 = FNV_OFFSET;
    let mut i: usize = 0;
    while i < v.len()
        invariant
            i <= v@.len(),
            h == spec_hash_bytes(v@.take(i as int)),
        decreases v@.len() - i,
    {
        let b = v[i];
        h = (h ^ (b as u64)).wrapping_mul(FNV_PRIME);
        i = i + 1;
        proof {
            assert(v@.take(i as int).drop_last() =~= v@.take(i as int - 1));
            assert(v@.take(i as int).last() == v@[i as int - 1]);
        }
    }
    proof {
        assert(v@.take(v@.len() as int) =~= v@);
    }
    h
}

/// Computes `spec_hash_u64` for a single integer.
pub fn hash_u64(x: u64) -> (r: u64)
    ensures
        r == spec_hash_u64(x),
{
    let mut bytes: Vec<u8> = Vec::new();
    crate::codec::encode_u64(x, &mut bytes);
    proof {
        assert(bytes@ =~= enc_u64(x));
    }
    hash_bytes(&bytes)
}

} // verus!
