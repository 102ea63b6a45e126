use vstd::prelude::*;

verus! {

/// Offset basis of the 64-bit FNV-1a hash.
pub const FNV_OFFSET: u64 = 0xcbf2_9ce4_8422_2325;

/// Prime of the 64-bit FNV-1a hash.
pub const FNV_PRIME: u64 = 0x0000_0100_0000_01b3;

/// One round of FNV-1a: mix in a byte, then multiply by the prime modulo 2^64.
pub open spec fn fnv_step(h: u64, b: u8) -> u64 {
    (((h ^ (b as u64)) as int * FNV_PRIME as int) % 0x1_0000_0000_0000_0000) as u64
}

/// The FNV-1a hash of a byte sequence, folded from the left.
pub open spec fn hash_bytes_spec(bytes: Seq<u8>) -> u64
    decreases bytes.len(),
{
    if bytes.len() == 0 {
        FNV_OFFSET
    } else {
        fnv_step(hash_bytes_spec(bytes.drop_last()), bytes.last())
    }
}

/// The stable 64-bit identity of a string: the hash of its UTF-8 bytes.
pub open spec fn hash_str_spec(s: Seq<char>) -> u64 {
    hash_bytes_spec(vstd::utf8::encode_utf8(s))
}

/// Hashes a byte slice.
pub fn hash_bytes(bytes: &[u8]) -> (h: u64)
    ensures
        h == hash_bytes_spec(bytes@),
{
    let mut h: u64 = FNV_OFFSET;
    let mut i: usize = 0;
    while i < bytes.len()
        invariant
            i <= bytes.len(),
            h == hash_bytes_spec(bytes@.take(i as int)),
        decreases bytes.len() - i,
    {
        proof {
            assert(bytes@.take(i + 1).drop_last() =~= bytes@.take(i as int));
        }
        h = (h ^ (bytes[i] as u64)).wrapping_mul(FNV_PRIME);
        i += 1;
    }
    proof {
        assert(bytes@.take(i as int) =~= bytes@);
    }
    h
}

/// Hashes a string by its UTF-8 bytes.
pub fn hash_str(s: &str) -> (h: u64)
    ensures
        h == hash_str_spec(s@),
{
    hash_bytes(s.as_bytes())
}

} // verus!
