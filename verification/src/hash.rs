use vstd::prelude::*;
use vstd::bytes::spec_u64_to_le_bytes;

verus! {

/// FNV-1a 64-bit offset basis.
pub const FNV_OFFSET_BASIS: u64 = 0xcbf29ce484222325;

/// FNV-1a 64-bit prime.
pub const FNV_PRIME: u64 = 0x100000001b3;

/// One FNV-1a round: xor the byte in, then multiply by the prime modulo 2^64.
pub open spec fn fnv_step(h: u64, b: u8) -> u64 {
    vstd::wrapping::u64_specs::wrapping_mul(h ^ (b as u64), FNV_PRIME)
}

/// FNV-1a rounds applied to `data` from left to right, starting at `h`.
pub open spec fn fnv_fold(h: u64, data: Seq<u8>) -> u64
    decreases data.len(),
{
    if data.len() == 0 {
        h
    } else {
        fnv_step(fnv_fold(h, data.drop_last()), data.last())
    }
}

/// The FNV-1a hash of a byte sequence.
pub open spec fn spec_fnv1a(data: Seq<u8>) -> u64 {
    fnv_fold(FNV_OFFSET_BASIS, data)
}

/// FNV-1a hash of a byte slice.
pub fn fnv1a(data: &[u8]) -> (h: u64)
    ensures
        h == spec_fnv1a(data@),
{
    let mut h: u64 = FNV_OFFSET_BASIS;
    let mut i: usize = 0;
    while i < data.len()
        invariant
            i <= data@.len(),
            h == fnv_fold(FNV_OFFSET_BASIS, data@.take(i as int)),
        decreases data@.len() - i,
    {
        assert(data@.take(i + 1).drop_last() =~= data@.take(i as int));
        h = h ^ (data[i] as u64);
        h = h.wrapping_mul(FNV_PRIME);
        i = i + 1;
    }
    assert(data@.take(data@.len() as int) =~= data@);
    h
}

/// Append the eight little-endian bytes of `x` to `buf`.
pub fn push_u64_le(buf: &mut Vec<u8>, x: u64)
    ensures
        final(buf)@ == old(buf)@ + spec_u64_to_le_bytes(x),
{
    let mut bytes = vstd::bytes::u64_to_le_bytes(x);
    buf.append(&mut bytes);
}

/// The sixteen bytes hashed for a pair of 64-bit words: both words little-endian.
pub open spec fn pair_bytes(a: u64, b: u64) -> Seq<u8> {
    spec_u64_to_le_bytes(a) + spec_u64_to_le_bytes(b)
}

/// FNV-1a over the little-endian bytes of `a` followed by those of `b`.
pub fn hash_pair(a: u64, b: u64) -> (h: u64)
    ensures
        h == spec_fnv1a(pair_bytes(a, b)),
{
    let mut data: Vec<u8> = Vec::new();
    push_u64_le(&mut data, a);
    push_u64_le(&mut data, b);
    assert(data@ =~= pair_bytes(a, b));
    fnv1a(data.as_slice())
}

} // verus!
