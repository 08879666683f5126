//! Repeating-key XOR over bytes.

use vstd::prelude::*;
use vstd::string::StringSliceAdditionalSpecFns;

verus! {

/// Byte `i` of `data` combined by exclusive-or with byte `i mod |key|` of `key`.
pub open spec fn xor_with(data: Seq<u8>, key: Seq<u8>) -> Seq<u8>
    recommends
        key.len() > 0,
{
    Seq::new(data.len(), |i: int| data[i] ^ key[i % key.len() as int])
}

/// XOR with a repeating key undoes itself.
pub proof fn lemma_xor_involutive(data: Seq<u8>, key: Seq<u8>)
    requires
        key.len() > 0,
    ensures
        xor_with(xor_with(data, key), key) == data,
{
    assert forall|i: int| 0 <= i < data.len() implies (data[i] ^ key[i % key.len() as int])
        ^ key[i % key.len() as int] == data[i] by {
        let a = data[i];
        let k = key[i % key.len() as int];
        assert((a ^ k) ^ k == a) by (bit_vector);
    }
    assert(xor_with(xor_with(data, key), key) =~= data);
}

/// XORs `data` with `key` repeated over its whole length.
pub fn xor_encrypt(data: &[u8], key: &[u8]) -> (r: Vec<u8>)
    requires
        key@.len() > 0,
    ensures
        r@ == xor_with(data@, key@),
{
    let mut out: Vec<u8> = Vec::new();
    let n = data.len();
    let mut i: usize = 0;
    while i < n
        invariant
            n == data@.len(),
            key@.len() > 0,
            i <= n,
            out@ == xor_with(data@, key@).take(i as int),
        decreases n - i,
    {
        out.push(data[i] ^ key[i % key.len()]);
        i = i + 1;
        assert(out@ =~= xor_with(data@, key@).take(i as int));
    }
    assert(xor_with(data@, key@).take(n as int) =~= xor_with(data@, key@));
    out
}

/// Undoes [`xor_encrypt`]; XOR with the same key is its own inverse.
pub fn xor_decrypt(encrypted_data: &[u8], key: &[u8]) -> (r: Vec<u8>)
    requires
        key@.len() > 0,
    ensures
        r@ == xor_with(encrypted_data@, key@),
{
    xor_encrypt(encrypted_data, key)
}

/// A repeating-key XOR cipher holding its key as bytes.
pub struct SimpleEncryption {
    key: Vec<u8>,
}

impl SimpleEncryption {
    /// The key's bytes.
    pub closed spec fn spec_key(&self) -> Seq<u8> {
        self.key@
    }

    /// Takes the UTF-8 bytes of `key` as the cipher's key.
    pub fn new(key: &str) -> (r: Self)
        ensures
            r.spec_key() == key.spec_bytes(),
    {
        SimpleEncryption { key: vstd::slice::slice_to_vec(key.as_bytes()) }
    }

    /// XORs `data` with the key.
    pub fn encrypt(&self, data: &[u8]) -> (r: Vec<u8>)
        requires
            self.spec_key().len() > 0,
        ensures
            r@ == xor_with(data@, self.spec_key()),
    {
        xor_encrypt(data, self.key.as_slice())
    }

    /// XORs `encrypted_data` with the key, undoing [`SimpleEncryption::encrypt`].
    pub fn decrypt(&self, encrypted_data: &[u8]) -> (r: Vec<u8>)
        requires
            self.spec_key().len() > 0,
        ensures
            r@ == xor_with(encrypted_data@, self.spec_key()),
    {
        xor_decrypt(encrypted_data, self.key.as_slice())
    }
}

} // verus!
