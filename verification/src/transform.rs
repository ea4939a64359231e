//! The reversible byte transform applied to file contents.
//!
//! The transform is an obfuscation, not a security control: it only keeps the
//! archive from being readable at a glance.

use vstd::prelude::*;

verus! {

/// The transform of `data` under `key`: byte `i` is combined by exclusive-or
/// with byte `i mod len(key)` of the key.
pub open spec fn xor_bytes(data: Seq<u8>, key: Seq<u8>) -> Seq<u8> {
    Seq::new(data.len(), |i: int| data[i] ^ key[i % (key.len() as int)])
}

/// The key that archives are written and read with unless the caller picks
/// another one: the ASCII bytes of `tdmcliKeyy`.
pub open spec fn default_key_bytes() -> Seq<u8> {
    seq![0x74u8, 0x64u8, 0x6du8, 0x63u8, 0x6cu8, 0x69u8, 0x4bu8, 0x65u8, 0x79u8, 0x79u8]
}

/// Returns the default key.
pub fn default_key() -> (key: Vec<u8>)
    ensures
        key@ == default_key_bytes(),
{
    let key: Vec<u8> = vec![0x74u8, 0x64u8, 0x6du8, 0x63u8, 0x6cu8, 0x69u8, 0x4bu8, 0x65u8, 0x79u8, 0x79u8];
    assert(key@ =~= default_key_bytes());
    key
}

/// Applies the transform to `data`.
///
/// An empty key is only accepted together with empty data.
pub fn transform(data: &[u8], key: &[u8]) -> (out: Vec<u8>)
    requires
        data@.len() > 0 ==> key@.len() > 0,
    ensures
        out@ == xor_bytes(data@, key@),
{
    let mut out: Vec<u8> = Vec::new();
    let mut i: usize = 0;
    while i < data.len()
        invariant
            i <= data@.len(),
            data@.len() > 0 ==> key@.len() > 0,
            out@.len() == i,
            forall|j: int| 0 <= j < i ==> out@[j] == data@[j] ^ key@[j % (key@.len() as int)],
        decreases data@.len() - i,
    {
        let k: u8 = key[i % key.len()];
        out.push(data[i] ^ k);
        i = i + 1;
    }
    assert(out@ =~= xor_bytes(data@, key@));
    out
}

/// Combining a byte twice with the same key byte gives the byte back.
proof fn lemma_xor_twice(b: u8, k: u8)
    ensures
        (b ^ k) ^ k == b,
{
    assert((b ^ k) ^ k == b) by (bit_vector);
}

/// The transform is its own inverse: applying it twice with the same
/// non-empty key gives the bytes back.
pub proof fn lemma_transform_involution(data: Seq<u8>, key: Seq<u8>)
    requires
        key.len() > 0,
    ensures
        xor_bytes(xor_bytes(data, key), key) == data,
{
    let once = xor_bytes(data, key);
    let twice = xor_bytes(once, key);
    assert forall|i: int| 0 <= i < data.len() implies twice[i] == data[i] by {
        lemma_xor_twice(data[i], key[i % (key.len() as int)]);
    }
    assert(twice =~= data);
}

} // verus!
