use vstd::prelude::*;

use crate::cipher::{Cipher, CipherError};

verus! {

/// The number of bytes that [`FakeAuthenticatedCipher`] adds: one tag byte.
pub const FAKE_CIPHERTEXT_OVERHEAD: usize = 1;

/// Each byte of `s` combined with `key` by exclusive or.
pub open spec fn xor_with(s: Seq<u8>, key: u8) -> Seq<u8> {
    Seq::new(s.len(), |i: int| s[i] ^ key)
}

/// The sum of the key and the bytes of `s`, modulo 256.
pub open spec fn checksum(key: u8, s: Seq<u8>) -> u8
    decreases s.len(),
{
    if s.len() == 0 {
        key
    } else {
        ((checksum(key, s.drop_last()) as int + s.last() as int) % 256) as u8
    }
}

proof fn lemma_xor_twice(s: Seq<u8>, key: u8)
    ensures
        xor_with(xor_with(s, key), key) == s,
{
    assert forall|i: int| 0 <= i < s.len() implies xor_with(xor_with(s, key), key)[i] == s[i] by {
        let a = s[i];
        assert((a ^ key) ^ key == a) by (bit_vector);
    }
    assert(xor_with(xor_with(s, key), key) =~= s);
}

/// A stand-in for a real cipher: it masks each byte with the key and adds
/// a one-byte checksum as its tag. It offers no secrecy and only detects
/// accidental changes; it is meant for tests and examples.
#[derive(Clone, Copy, Debug, PartialEq, Eq, Structural)]
pub struct FakeAuthenticatedCipher {
    pub key: u8,
}

impl FakeAuthenticatedCipher {
    /// The cipher with key `key`.
    pub fn new(key: u8) -> (r: FakeAuthenticatedCipher)
        ensures
            r.key == key,
    {
        FakeAuthenticatedCipher { key }
    }

    /// The checksum of `s` under the key.
    fn compute_checksum(&self, s: &[u8]) -> (r: u8)
        ensures
            r == checksum(self.key, s@),
    {
        let mut acc: u8 = self.key;
        let mut i: usize = 0;
        while i < s.len()
            invariant
                i <= s@.len(),
                acc == checksum(self.key, s@.subrange(0, i as int)),
            decreases s@.len() - i,
        {
            assert(s@.subrange(0, i + 1).drop_last() =~= s@.subrange(0, i as int));
            acc = ((acc as u16 + s[i] as u16) % 256) as u8;
            i = i + 1;
        }
        assert(s@.subrange(0, i as int) =~= s@);
        acc
    }

    /// Each byte of `s` combined with the key by exclusive or.
    fn mask(&self, s: &[u8]) -> (r: Vec<u8>)
        ensures
            r@ == xor_with(s@, self.key),
    {
        let mut r: Vec<u8> = Vec::with_capacity(s.len());
        let mut i: usize = 0;
        while i < s.len()
            invariant
                i <= s@.len(),
                r@ =~= xor_with(s@.subrange(0, i as int), self.key),
            decreases s@.len() - i,
        {
            r.push(s[i] ^ self.key);
            i = i + 1;
        }
        assert(s@.subrange(0, i as int) =~= s@);
        r
    }
}

impl Cipher for FakeAuthenticatedCipher {
    open spec fn spec_ciphertext_overhead(&self) -> nat {
        FAKE_CIPHERTEXT_OVERHEAD as nat
    }

    /// Masking and summing never fail.
    open spec fn spec_infallible(&self) -> bool {
        true
    }

    open spec fn spec_decrypt(&self, ciphertext: Seq<u8>) -> Option<Seq<u8>> {
        if ciphertext.len() >= 1 && ciphertext[0] == checksum(
            self.key,
            xor_with(ciphertext.subrange(1, ciphertext.len() as int), self.key),
        ) {
            Some(xor_with(ciphertext.subrange(1, ciphertext.len() as int), self.key))
        } else {
            None
        }
    }

    fn ciphertext_overhead(&self) -> (r: usize) {
        FAKE_CIPHERTEXT_OVERHEAD
    }

    fn encrypt(&self, plaintext: &[u8]) -> (r: Result<Vec<u8>, CipherError>) {
        let tag = self.compute_checksum(plaintext);
        let body = self.mask(plaintext);
        let mut c: Vec<u8> = Vec::new();
        c.push(tag);
        let mut i: usize = 0;
        while i < body.len()
            invariant
                i <= body@.len(),
                c@ =~= seq![tag] + body@.subrange(0, i as int),
            decreases body@.len() - i,
        {
            c.push(body[i]);
            i = i + 1;
        }
        proof {
            assert(body@.subrange(0, i as int) =~= body@);
            assert(c@.subrange(1, c@.len() as int) =~= body@);
            lemma_xor_twice(plaintext@, self.key);
        }
        Ok(c)
    }

    fn decrypt(&self, ciphertext: &[u8]) -> (r: Result<Vec<u8>, CipherError>) {
        if ciphertext.len() < 1 {
            return Err(CipherError::DecryptionFailed);
        }
        let body = vstd::slice::slice_subrange(ciphertext, 1, ciphertext.len());
        let plaintext = self.mask(body);
        let tag = self.compute_checksum(plaintext.as_slice());
        if tag != ciphertext[0] {
            return Err(CipherError::DecryptionFailed);
        }
        Ok(plaintext)
    }
}

} // verus!
