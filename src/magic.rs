//! The endpoint magic: a 32-bit string hash of the endpoint's name, computed
//! the same way by every peer.
use vstd::prelude::*;
use vstd::utf8::encode_utf8;

verus! {

/// One byte folded into the running hash.
pub open spec fn mix(h: u32, b: u8) -> u32 {
    let h1 = h.wrapping_add(b as u32);
    let h2 = h1.wrapping_add(h1 << 10u32);
    h2 ^ (h2 >> 6u32)
}

/// The running hash after every byte of `s`, starting from 0.
pub open spec fn hash_prefix(s: Seq<u8>) -> u32
    decreases s.len(),
{
    if s.len() == 0 {
        0
    } else {
        mix(hash_prefix(s.drop_last()), s.last())
    }
}

/// The final avalanche applied once all bytes are in.
pub open spec fn finish(h: u32) -> u32 {
    let h1 = h.wrapping_add(h << 3u32);
    let h2 = h1 ^ (h1 >> 11u32);
    h2.wrapping_add(h2 << 15u32)
}

/// The hash of the bytes `s` (all arithmetic modulo `2^32`).
pub open spec fn string_hash(s: Seq<u8>) -> u32 {
    finish(hash_prefix(s))
}

/// The magic of the endpoint called `name`: the hash of its UTF-8 bytes.
pub open spec fn magic_of(name: Seq<char>) -> u32 {
    string_hash(encode_utf8(name))
}

/// The hash of the bytes `s`.
pub fn hash(s: &[u8]) -> (r: u32)
    ensures
        r == string_hash(s@),
{
    let mut h: u32 = 0;
    let mut i: usize = 0;
    while i < s.len()
        invariant
            i <= s@.len(),
            h == hash_prefix(s@.take(i as int)),
        decreases s@.len() - i,
    {
        proof {
            let t = s@.take(i + 1);
            assert(t.drop_last() =~= s@.take(i as int));
            assert(t.last() == s@[i as int]);
        }
        h = h.wrapping_add(s[i] as u32);
        h = h.wrapping_add(h << 10u32);
        h = h ^ (h >> 6u32);
        i = i + 1;
    }
    assert(s@.take(i as int) =~= s@);
    h = h.wrapping_add(h << 3u32);
    h = h ^ (h >> 11u32);
    h = h.wrapping_add(h << 15u32);
    h
}

/// The magic of the endpoint called `name`.
pub fn compute_magic(name: &str) -> (r: u32)
    ensures
        r == magic_of(name@),
{
    hash(name.as_bytes())
}

/// The empty name hashes to 0.
pub proof fn lemma_magic_of_empty()
    ensures
        magic_of(Seq::<char>::empty()) == 0,
{
    assert(encode_utf8(Seq::<char>::empty()) =~= Seq::<u8>::empty());
    let z: u32 = 0;
    assert((z << 3u32) == 0 && (z >> 11u32) == 0 && (z << 15u32) == 0 && (z ^ z) == 0)
        by (bit_vector)
        requires
            z == 0,
    ;
}

} // verus!
