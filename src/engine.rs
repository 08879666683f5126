//! A cipher engine that holds one algorithm and its key and dispatches
//! encryption and decryption of byte buffers to it.

use vstd::prelude::*;
use vstd::string::StringSliceAdditionalSpecFns;
use crate::alpha::{
    base_of, is_alpha, is_lower, is_upper, lemma_rotate_compose, lemma_rotate_full_turn,
    lemma_rotate_keeps_case, lemma_rotate_periodic, rotate, rotate_all, rotate_byte,
};
use crate::xor::{lemma_xor_involutive, xor_with};

verus! {

/// The algorithms the engine can run.
#[derive(Clone, Copy, Debug, PartialEq, Eq)]
pub enum CipherType {
    /// Rotation of every ASCII letter by a fixed shift; needs no key.
    Caesar(u8),
    /// Repeating-key exclusive-or.
    XOR,
    /// Rotation of each ASCII letter by a shift read from the repeating key.
    Vigenere,
}

/// Why an engine could not be built.
#[derive(Clone, Copy, Debug, PartialEq, Eq)]
pub enum CipherError {
    /// The algorithm needs a key of at least one byte and the key was empty.
    InvalidKey,
}

/// The algorithm needs a non-empty key.
pub open spec fn needs_key(alg: CipherType) -> bool {
    !(alg is Caesar)
}

/// The shift that a key byte gives: a letter's place in the alphabet
/// (`A` and `a` give 0, `Z` and `z` give 25), any other byte modulo 26.
pub open spec fn key_shift(kb: u8) -> int {
    if is_alpha(kb) {
        kb - base_of(kb)
    } else {
        kb as int % 26
    }
}

/// The shift applied at position `i`: read from the key byte at `i mod |key|`.
pub open spec fn shift_at(key: Seq<u8>, i: int) -> int {
    key_shift(key[i % key.len() as int])
}

/// Vigenere encryption: byte `i`, when a letter, rotated forward by the shift
/// of key byte `i mod |key|`. The key position follows the absolute position,
/// so bytes that are not letters still advance it.
pub open spec fn vigenere_forward(data: Seq<u8>, key: Seq<u8>) -> Seq<u8>
    recommends
        key.len() > 0,
{
    Seq::new(data.len(), |i: int| rotate(data[i], shift_at(key, i)))
}

/// Vigenere decryption: as [`vigenere_forward`], rotating backward.
pub open spec fn vigenere_backward(data: Seq<u8>, key: Seq<u8>) -> Seq<u8>
    recommends
        key.len() > 0,
{
    Seq::new(data.len(), |i: int| rotate(data[i], -shift_at(key, i)))
}

/// What encrypting `data` with algorithm `alg` and key `key` gives.
pub open spec fn encrypt_spec(alg: CipherType, key: Seq<u8>, data: Seq<u8>) -> Seq<u8> {
    match alg {
        CipherType::Caesar(shift) => rotate_all(data, shift as int),
        CipherType::XOR => xor_with(data, key),
        CipherType::Vigenere => vigenere_forward(data, key),
    }
}

/// What decrypting `data` with algorithm `alg` and key `key` gives.
pub open spec fn decrypt_spec(alg: CipherType, key: Seq<u8>, data: Seq<u8>) -> Seq<u8> {
    match alg {
        CipherType::Caesar(shift) => rotate_all(data, -(shift as int)),
        CipherType::XOR => xor_with(data, key),
        CipherType::Vigenere => vigenere_backward(data, key),
    }
}

/// Rotating forward by `k` and then backward by `k` restores the byte.
proof fn lemma_rotate_undone(b: u8, k: int)
    ensures
        rotate(rotate(b, k), -k) == b,
{
    lemma_rotate_compose(b, k, -k);
    lemma_rotate_full_turn(b, 0);
}

/// Decrypting what was encrypted, with the same algorithm and a key that the
/// algorithm accepts, gives back the plaintext, for every plaintext.
pub proof fn lemma_round_trip(alg: CipherType, key: Seq<u8>, plain: Seq<u8>)
    requires
        needs_key(alg) ==> key.len() > 0,
    ensures
        decrypt_spec(alg, key, encrypt_spec(alg, key, plain)) == plain,
{
    match alg {
        CipherType::Caesar(shift) => {
            assert forall|i: int| 0 <= i < plain.len() implies rotate(
                rotate(plain[i], shift as int),
                -(shift as int),
            ) == plain[i] by {
                lemma_rotate_undone(plain[i], shift as int);
            }
            assert(decrypt_spec(alg, key, encrypt_spec(alg, key, plain)) =~= plain);
        },
        CipherType::XOR => {
            lemma_xor_involutive(plain, key);
        },
        CipherType::Vigenere => {
            assert forall|i: int| 0 <= i < plain.len() implies rotate(
                rotate(plain[i], shift_at(key, i)),
                -shift_at(key, i),
            ) == plain[i] by {
                lemma_rotate_undone(plain[i], shift_at(key, i));
            }
            assert(decrypt_spec(alg, key, encrypt_spec(alg, key, plain)) =~= plain);
        },
    }
}

/// Caesar and Vigenere leave a buffer that holds no ASCII letter unchanged,
/// whatever the shift or key.
pub proof fn lemma_non_letters_pass_through(alg: CipherType, key: Seq<u8>, plain: Seq<u8>)
    requires
        alg is Caesar || alg is Vigenere,
        forall|i: int| 0 <= i < plain.len() ==> !is_alpha(#[trigger] plain[i]),
    ensures
        encrypt_spec(alg, key, plain) == plain,
{
    assert(encrypt_spec(alg, key, plain) =~= plain);
}

/// XOR encryption applied twice with the same non-empty key restores the input.
pub proof fn lemma_xor_self_inverse(key: Seq<u8>, plain: Seq<u8>)
    requires
        key.len() > 0,
    ensures
        encrypt_spec(CipherType::XOR, key, encrypt_spec(CipherType::XOR, key, plain)) == plain,
{
    lemma_xor_involutive(plain, key);
}

/// Caesar and Vigenere keep the length and, position by position, the case:
/// capitals stay capitals, small letters stay small, other bytes stay put.
pub proof fn lemma_case_preserved(alg: CipherType, key: Seq<u8>, plain: Seq<u8>)
    requires
        alg is Caesar || alg is Vigenere,
    ensures
        encrypt_spec(alg, key, plain).len() == plain.len(),
        forall|i: int|
            0 <= i < plain.len() ==> is_upper(#[trigger] encrypt_spec(alg, key, plain)[i])
                == is_upper(plain[i]) && is_lower(encrypt_spec(alg, key, plain)[i]) == is_lower(
                plain[i],
            ),
{
    assert forall|i: int| 0 <= i < plain.len() implies is_upper(
        #[trigger] encrypt_spec(alg, key, plain)[i],
    ) == is_upper(plain[i]) && is_lower(encrypt_spec(alg, key, plain)[i]) == is_lower(
        plain[i],
    ) by {
        match alg {
            CipherType::Caesar(shift) => lemma_rotate_keeps_case(plain[i], shift as int),
            _ => lemma_rotate_keeps_case(plain[i], shift_at(key, i)),
        }
    }
}

/// The shift of key byte `kb`, as [`key_shift`] defines it.
fn key_shift_of(kb: u8) -> (r: u8)
    ensures
        r == key_shift(kb),
        r < 26,
{
    if 97 <= kb && kb <= 122 {
        kb - 97
    } else if 65 <= kb && kb <= 90 {
        kb - 65
    } else {
        kb % 26
    }
}

/// Rotates `b` backward by `k` places within its alphabet.
fn unrotate_byte(b: u8, k: u8) -> (r: u8)
    ensures
        r == rotate(b, -(k as int)),
{
    let back: u8 = 26 - k % 26;
    let r = rotate_byte(b, back);
    proof {
        lemma_rotate_periodic(b, -(k as int), 1 + k as int / 26);
        assert(back as int == -(k as int) + 26 * (1 + k as int / 26));
    }
    r
}

/// An engine running one algorithm with one key.
pub struct EncryptionManager {
    algorithm: CipherType,
    key: Vec<u8>,
}

impl EncryptionManager {
    /// The algorithm the engine runs.
    pub closed spec fn spec_algorithm(&self) -> CipherType {
        self.algorithm
    }

    /// The key's bytes.
    pub closed spec fn spec_key(&self) -> Seq<u8> {
        self.key@
    }

    /// The key is non-empty wherever the algorithm reads it.
    pub open spec fn wf(&self) -> bool {
        needs_key(self.spec_algorithm()) ==> self.spec_key().len() > 0
    }

    /// Builds an engine for `algorithm` keyed by the UTF-8 bytes of `key`.
    /// Fails with `InvalidKey` exactly when the algorithm reads a key and
    /// `key` is empty.
    pub fn new(algorithm: CipherType, key: &str) -> (r: Result<Self, CipherError>)
        ensures
            r is Err <==> needs_key(algorithm) && key.spec_bytes().len() == 0,
            r is Err ==> r->Err_0 == CipherError::InvalidKey,
            r is Ok ==> r->Ok_0.spec_algorithm() == algorithm && r->Ok_0.spec_key()
                == key.spec_bytes() && r->Ok_0.wf(),
    {
        let bytes = key.as_bytes();
        let keyed = match algorithm {
            CipherType::Caesar(_) => false,
            _ => true,
        };
        if keyed && bytes.len() == 0 {
            Err(CipherError::InvalidKey)
        } else {
            Ok(EncryptionManager { algorithm, key: vstd::slice::slice_to_vec(bytes) })
        }
    }

    /// Encrypts `data` with the engine's algorithm and key.
    pub fn encrypt(&self, data: &[u8]) -> (r: Vec<u8>)
        requires
            self.wf(),
        ensures
            r@ == encrypt_spec(self.spec_algorithm(), self.spec_key(), data@),
    {
        match self.algorithm {
            CipherType::Caesar(shift) => self.caesar_encrypt(data, shift),
            CipherType::XOR => self.xor_encrypt(data),
            CipherType::Vigenere => self.vigenere_encrypt(data),
        }
    }

    /// Decrypts `data` with the engine's algorithm and key.
    pub fn decrypt(&self, data: &[u8]) -> (r: Vec<u8>)
        requires
            self.wf(),
        ensures
            r@ == decrypt_spec(self.spec_algorithm(), self.spec_key(), data@),
    {
        match self.algorithm {
            CipherType::Caesar(shift) => self.caesar_decrypt(data, shift),
            CipherType::XOR => self.xor_decrypt(data),
            CipherType::Vigenere => self.vigenere_decrypt(data),
        }
    }

    fn caesar_encrypt(&self, data: &[u8], shift: u8) -> (r: Vec<u8>)
        ensures
            r@ == rotate_all(data@, shift as int),
    {
        let k: u8 = shift % 26;
        let mut out: Vec<u8> = Vec::new();
        let n = data.len();
        let mut i: usize = 0;
        while i < n
            invariant
                n == data@.len(),
                k == shift % 26,
                i <= n,
                out@ == rotate_all(data@, shift as int).take(i as int),
            decreases n - i,
        {
            let b = rotate_byte(data[i], k);
            proof {
                lemma_rotate_periodic(data@[i as int], k as int, shift as int / 26);
            }
            out.push(b);
            i = i + 1;
            assert(out@ =~= rotate_all(data@, shift as int).take(i as int));
        }
        assert(rotate_all(data@, shift as int).take(n as int) =~= rotate_all(data@, shift as int));
        out
    }

    fn caesar_decrypt(&self, data: &[u8], shift: u8) -> (r: Vec<u8>)
        ensures
            r@ == rotate_all(data@, -(shift as int)),
    {
        let back: u8 = 26 - shift % 26;
        let r = self.caesar_encrypt(data, back);
        proof {
            assert forall|i: int| 0 <= i < data@.len() implies rotate(data@[i], back as int)
                == rotate(data@[i], -(shift as int)) by {
                lemma_rotate_periodic(data@[i], -(shift as int), 1 + shift as int / 26);
            }
            assert(rotate_all(data@, back as int) =~= rotate_all(data@, -(shift as int)));
        }
        r
    }

    fn xor_encrypt(&self, data: &[u8]) -> (r: Vec<u8>)
        requires
            self.spec_key().len() > 0,
        ensures
            r@ == xor_with(data@, self.spec_key()),
    {
        crate::xor::xor_encrypt(data, self.key.as_slice())
    }

    fn xor_decrypt(&self, data: &[u8]) -> (r: Vec<u8>)
        requires
            self.spec_key().len() > 0,
        ensures
            r@ == xor_with(data@, self.spec_key()),
    {
        self.xor_encrypt(data)
    }

    fn vigenere_encrypt(&self, data: &[u8]) -> (r: Vec<u8>)
        requires
            self.spec_key().len() > 0,
        ensures
            r@ == vigenere_forward(data@, self.spec_key()),
    {
        let mut out: Vec<u8> = Vec::new();
        let n = data.len();
        let mut i: usize = 0;
        while i < n
            invariant
                n == data@.len(),
                self.key@.len() > 0,
                i <= n,
                out@ == vigenere_forward(data@, self.key@).take(i as int),
            decreases n - i,
        {
            let b = data[i];
            let shift = key_shift_of(self.key[i % self.key.len()]);
            out.push(rotate_byte(b, shift));
            i = i + 1;
            assert(out@ =~= vigenere_forward(data@, self.key@).take(i as int));
        }
        assert(vigenere_forward(data@, self.key@).take(n as int) =~= vigenere_forward(
            data@,
            self.key@,
        ));
        out
    }

    fn vigenere_decrypt(&self, data: &[u8]) -> (r: Vec<u8>)
        requires
            self.spec_key().len() > 0,
        ensures
            r@ == vigenere_backward(data@, self.spec_key()),
    {
        let mut out: Vec<u8> = Vec::new();
        let n = data.len();
        let mut i: usize = 0;
        while i < n
            invariant
                n == data@.len(),
                self.key@.len() > 0,
                i <= n,
                out@ == vigenere_backward(data@, self.key@).take(i as int),
            decreases n - i,
        {
            let b = data[i];
            let shift = key_shift_of(self.key[i % self.key.len()]);
            out.push(unrotate_byte(b, shift));
            i = i + 1;
            assert(out@ =~= vigenere_backward(data@, self.key@).take(i as int));
        }
        assert(vigenere_backward(data@, self.key@).take(n as int) =~= vigenere_backward(
            data@,
            self.key@,
        ));
        out
    }
}

} // verus!
