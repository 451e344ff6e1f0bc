use vstd::prelude::*;

verus! {

/// Offset basis of the 64-bit FNV-1a hash.
pub const FNV_OFFSET_BASIS: u64 = 0xcbf29ce484222325;

/// Prime of the 64-bit FNV-1a hash.
pub const FNV_PRIME: u64 = 0x100000001b3;

/// One FNV-1a step: xor the byte into the state, then multiply by the prime modulo 2^64.
pub open spec fn fnv1a_step(hash: u64, byte: u8) -> u64 {
    (((hash ^ (byte as u64)) as nat * FNV_PRIME as nat) % 0x1_0000_0000_0000_0000nat) as u64
}

/// The 64-bit FNV-1a hash of a byte sequence.
pub open spec fn fnv1a(bytes: Seq<u8>) -> u64
    decreases bytes.len(),
{
    if bytes.len() == 0 {
        FNV_OFFSET_BASIS
    } else {
        fnv1a_step(fnv1a(bytes.drop_last()), bytes.last())
    }
}

/// Hashes a key's bytes with 64-bit FNV-1a.
pub fn hash_key(key: &[u8]) -> (hash: u64)
    ensures
        hash == fnv1a(key@),
{
    let mut hash: u64 = FNV_OFFSET_BASIS;
    let mut i: usize = 0;
    while i < key.len()
        invariant
            i <= key.len(),
            hash == fnv1a(key@.subrange(0, i as int)),
        decreases key.len() - i,
    {
        assert(key@.subrange(0, i + 1).drop_last() =~= key@.subrange(0, i as int));
        hash = (hash ^ key[i] as u64).wrapping_mul(FNV_PRIME);
        i = i + 1;
    }
    assert(key@.subrange(0, i as int) =~= key@);
    hash
}

} // verus!
