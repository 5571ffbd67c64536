use vstd::prelude::*;

verus! {

/// Failure of a cipher operation.
#[derive(Clone, Copy, Debug, PartialEq, Eq, Structural)]
pub enum CipherError {
    /// The plaintext could not be encrypted.
    EncryptionFailed,
    /// The ciphertext is not authentic under this key.
    DecryptionFailed,
}

/// An authenticated symmetric cipher with a fixed key.
///
/// Encryption may be randomised (a fresh nonce each time); decryption is a
/// function of the key and the ciphertext, and accepts only ciphertexts that
/// this key produced.
pub trait Cipher {
    /// The number of bytes that a ciphertext has beyond its plaintext.
    spec fn spec_ciphertext_overhead(&self) -> nat;

    /// The plaintext that `ciphertext` decrypts to under this key, or `None`
    /// where it is not authentic.
    spec fn spec_decrypt(&self, ciphertext: Seq<u8>) -> Option<Seq<u8>>;

    /// Whether encryption never fails.
    spec fn spec_infallible(&self) -> bool;

    /// The number of bytes that a ciphertext has beyond its plaintext.
    fn ciphertext_overhead(&self) -> (r: usize)
        ensures
            r == self.spec_ciphertext_overhead(),
    ;

    /// Encrypts `plaintext`; what comes out decrypts back to it.
    fn encrypt(&self, plaintext: &[u8]) -> (r: Result<Vec<u8>, CipherError>)
        ensures
            r matches Ok(c) ==> {
                &&& c@.len() == plaintext@.len() + self.spec_ciphertext_overhead()
                &&& self.spec_decrypt(c@) == Some(plaintext@)
            },
            self.spec_infallible() ==> r is Ok,
    ;

    /// Decrypts `ciphertext`, failing exactly where it is not authentic.
    fn decrypt(&self, ciphertext: &[u8]) -> (r: Result<Vec<u8>, CipherError>)
        ensures
            match self.spec_decrypt(ciphertext@) {
                Some(p) => r matches Ok(v) && v@ == p,
                None => r is Err,
            },
    ;
}

} // verus!
