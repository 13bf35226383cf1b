//! Secrets that are wiped from memory when dropped, and fresh random bytes.
use rand::RngCore;
use secrecy::{ExposeSecret, SecretVec};
use vstd::prelude::*;

verus! {

/// Bytes held in a `secrecy::SecretVec`, which zeroes them when dropped.
/// Passwords and keys travel through the library in this form.
#[verifier::external_body]
pub struct SecretBytes {
    inner: SecretVec<u8>,
}

/// The bytes that a secret holds.
pub uninterp spec fn secret_bytes(secret: SecretBytes) -> Seq<u8>;

/// `Secret::new` of the `secrecy` crate on a byte vector: the secret holds
/// exactly these bytes.
#[verifier::external_body]
pub(crate) fn protect(bytes: Vec<u8>) -> (secret: SecretBytes)
    ensures
        secret_bytes(secret) == bytes@,
{
    SecretBytes { inner: SecretVec::new(bytes) }
}

/// `ExposeSecret::expose_secret` of the `secrecy` crate: borrows the bytes
/// that the secret holds.
#[verifier::external_body]
pub(crate) fn exposed(secret: &SecretBytes) -> (bytes: &[u8])
    ensures
        bytes@ == secret_bytes(*secret),
{
    secret.inner.expose_secret().as_slice()
}

/// `RngCore::fill_bytes` on `rand::thread_rng()`: `len` bytes from the
/// thread's generator. Nothing is known of them but their number.
#[verifier::external_body]
pub(crate) fn random_bytes(len: usize) -> (out: Vec<u8>)
    ensures
        out@.len() == len,
{
    let mut out = vec![0u8; len];
    rand::thread_rng().fill_bytes(&mut out);
    out
}

impl View for SecretBytes {
    type V = Seq<u8>;

    open spec fn view(&self) -> Seq<u8> {
        secret_bytes(*self)
    }
}

impl SecretBytes {
    /// Takes ownership of `bytes` as a secret.
    pub fn new(bytes: Vec<u8>) -> (secret: SecretBytes)
        ensures
            secret@ == bytes@,
    {
        protect(bytes)
    }

    /// The bytes of the secret, for as long as the borrow lasts.
    pub fn expose(&self) -> (bytes: &[u8])
        ensures
            bytes@ == self@,
    {
        exposed(self)
    }

    /// A second secret with the same bytes.
    pub fn duplicate(&self) -> (copy: SecretBytes)
        ensures
            copy@ == self@,
    {
        let bytes = exposed(self);
        protect(crate::bytes::copy_range(bytes, 0, bytes.len()))
    }
}

} // verus!
