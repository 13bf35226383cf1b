//! The cipher suite: authenticated encryption of byte strings under a
//! symmetric key, in a ChaCha20 and an AES variant.
use aes_gcm::Aes256Gcm;
use chacha20poly1305::aead::{Aead, KeyInit, Payload};
use chacha20poly1305::ChaCha20Poly1305;
use vstd::prelude::*;
use vstd::slice::slice_subrange;

use crate::bytes::append;
use crate::secret::random_bytes;

verus! {

/// Length of a symmetric key, in bytes.
pub const KEY_LEN: usize = 32;

/// Length of a nonce, in bytes.
pub const NONCE_LEN: usize = 12;

/// Length of the authentication tag that follows every ciphertext.
pub const TAG_LEN: usize = 16;

/// Longest message or associated data that is sealed in one piece.
pub const MAX_MESSAGE_LEN: usize = 0x4000_0000;

/// The two variants of the suite.
#[derive(Clone, Copy, Debug, PartialEq, Eq, Structural)]
pub enum Cipher {
    ChaCha20,
    Aes256Gcm,
}

/// What ChaCha20-Poly1305 encryption returns: ciphertext followed by the tag.
pub uninterp spec fn chacha20_sealed(
    key: Seq<u8>,
    nonce: Seq<u8>,
    aad: Seq<u8>,
    plaintext: Seq<u8>,
) -> Seq<u8>;

/// What ChaCha20-Poly1305 decryption returns; `None` where authentication fails.
pub uninterp spec fn chacha20_opened(
    key: Seq<u8>,
    nonce: Seq<u8>,
    aad: Seq<u8>,
    sealed: Seq<u8>,
) -> Option<Seq<u8>>;

/// What AES-256-GCM encryption returns: ciphertext followed by the tag.
pub uninterp spec fn aes256gcm_sealed(
    key: Seq<u8>,
    nonce: Seq<u8>,
    aad: Seq<u8>,
    plaintext: Seq<u8>,
) -> Seq<u8>;

/// What AES-256-GCM decryption returns; `None` where authentication fails.
pub uninterp spec fn aes256gcm_opened(
    key: Seq<u8>,
    nonce: Seq<u8>,
    aad: Seq<u8>,
    sealed: Seq<u8>,
) -> Option<Seq<u8>>;

/// `ChaCha20Poly1305::encrypt` of the `chacha20poly1305` crate. Within the
/// stated lengths it does not fail; the result is the plaintext's length plus
/// the tag, and decryption with the same key, nonce and associated data gives
/// the plaintext back.
#[verifier::external_body]
fn chacha20_seal(key: &[u8], nonce: &[u8], aad: &[u8], plaintext: &[u8]) -> (out: Vec<u8>)
    requires
        key@.len() == KEY_LEN,
        nonce@.len() == NONCE_LEN,
        aad@.len() <= MAX_MESSAGE_LEN,
        plaintext@.len() <= MAX_MESSAGE_LEN,
    ensures
        out@ == chacha20_sealed(key@, nonce@, aad@, plaintext@),
        out@.len() == plaintext@.len() + TAG_LEN,
        chacha20_opened(key@, nonce@, aad@, out@) == Some(plaintext@),
{
    let cipher = ChaCha20Poly1305::new(chacha20poly1305::Key::from_slice(key));
    let nonce = chacha20poly1305::Nonce::from_slice(nonce);
    match cipher.encrypt(nonce, Payload { msg: plaintext, aad }) {
        Ok(out) => out,
        Err(_) => Vec::new(),
    }
}

/// `ChaCha20Poly1305::decrypt` of the `chacha20poly1305` crate. A plaintext
/// that comes back is shorter than the input by the tag.
#[verifier::external_body]
fn chacha20_open(key: &[u8], nonce: &[u8], aad: &[u8], sealed: &[u8]) -> (out: Option<Vec<u8>>)
    requires
        key@.len() == KEY_LEN,
        nonce@.len() == NONCE_LEN,
    ensures
        out matches Some(p) ==> chacha20_opened(key@, nonce@, aad@, sealed@) == Some(p@),
        out is None ==> chacha20_opened(key@, nonce@, aad@, sealed@) is None,
        out matches Some(p) ==> p@.len() + TAG_LEN == sealed@.len(),
{
    let cipher = ChaCha20Poly1305::new(chacha20poly1305::Key::from_slice(key));
    let nonce = chacha20poly1305::Nonce::from_slice(nonce);
    match cipher.decrypt(nonce, Payload { msg: sealed, aad }) {
        Ok(out) => Some(out),
        Err(_) => None,
    }
}

/// `Aes256Gcm::encrypt` of the `aes-gcm` crate. Within the stated lengths it
/// does not fail; the result is the plaintext's length plus the tag, and
/// decryption with the same key, nonce and associated data gives the
/// plaintext back.
#[verifier::external_body]
fn aes256gcm_seal(key: &[u8], nonce: &[u8], aad: &[u8], plaintext: &[u8]) -> (out: Vec<u8>)
    requires
        key@.len() == KEY_LEN,
        nonce@.len() == NONCE_LEN,
        aad@.len() <= MAX_MESSAGE_LEN,
        plaintext@.len() <= MAX_MESSAGE_LEN,
    ensures
        out@ == aes256gcm_sealed(key@, nonce@, aad@, plaintext@),
        out@.len() == plaintext@.len() + TAG_LEN,
        aes256gcm_opened(key@, nonce@, aad@, out@) == Some(plaintext@),
{
    let cipher = Aes256Gcm::new(aes_gcm::Key::<Aes256Gcm>::from_slice(key));
    let nonce = aes_gcm::Nonce::from_slice(nonce);
    match cipher.encrypt(nonce, Payload { msg: plaintext, aad }) {
        Ok(out) => out,
        Err(_) => Vec::new(),
    }
}

/// `Aes256Gcm::decrypt` of the `aes-gcm` crate. A plaintext that comes back
/// is shorter than the input by the tag.
#[verifier::external_body]
fn aes256gcm_open(key: &[u8], nonce: &[u8], aad: &[u8], sealed: &[u8]) -> (out: Option<Vec<u8>>)
    requires
        key@.len() == KEY_LEN,
        nonce@.len() == NONCE_LEN,
    ensures
        out matches Some(p) ==> aes256gcm_opened(key@, nonce@, aad@, sealed@) == Some(p@),
        out is None ==> aes256gcm_opened(key@, nonce@, aad@, sealed@) is None,
        out matches Some(p) ==> p@.len() + TAG_LEN == sealed@.len(),
{
    let cipher = Aes256Gcm::new(aes_gcm::Key::<Aes256Gcm>::from_slice(key));
    let nonce = aes_gcm::Nonce::from_slice(nonce);
    match cipher.decrypt(nonce, Payload { msg: sealed, aad }) {
        Ok(out) => Some(out),
        Err(_) => None,
    }
}

/// The sealed form of `plaintext`: ciphertext with the tag appended.
pub open spec fn sealed(
    cipher: Cipher,
    key: Seq<u8>,
    nonce: Seq<u8>,
    aad: Seq<u8>,
    plaintext: Seq<u8>,
) -> Seq<u8> {
    match cipher {
        Cipher::ChaCha20 => chacha20_sealed(key, nonce, aad, plaintext),
        Cipher::Aes256Gcm => aes256gcm_sealed(key, nonce, aad, plaintext),
    }
}

/// The plaintext behind `sealed`, or `None` where it does not authenticate.
pub open spec fn opened(
    cipher: Cipher,
    key: Seq<u8>,
    nonce: Seq<u8>,
    aad: Seq<u8>,
    sealed: Seq<u8>,
) -> Option<Seq<u8>> {
    match cipher {
        Cipher::ChaCha20 => chacha20_opened(key, nonce, aad, sealed),
        Cipher::Aes256Gcm => aes256gcm_opened(key, nonce, aad, sealed),
    }
}

/// Whether key, nonce and message have lengths that the suite seals.
pub open spec fn sealable(key: Seq<u8>, nonce: Seq<u8>, aad: Seq<u8>, plaintext: Seq<u8>) -> bool {
    &&& key.len() == KEY_LEN
    &&& nonce.len() == NONCE_LEN
    &&& aad.len() <= MAX_MESSAGE_LEN
    &&& plaintext.len() <= MAX_MESSAGE_LEN
}

/// Seals `plaintext` under `key` and `nonce`, bound to `aad`.
pub fn seal(cipher: Cipher, key: &[u8], nonce: &[u8], aad: &[u8], plaintext: &[u8]) -> (out: Option<
    Vec<u8>,
>)
    ensures
        out is Some <==> sealable(key@, nonce@, aad@, plaintext@),
        out matches Some(c) ==> {
            &&& c@ == sealed(cipher, key@, nonce@, aad@, plaintext@)
            &&& c@.len() == plaintext@.len() + TAG_LEN
            &&& opened(cipher, key@, nonce@, aad@, c@) == Some(plaintext@)
        },
{
    if key.len() != KEY_LEN || nonce.len() != NONCE_LEN || aad.len() > MAX_MESSAGE_LEN
        || plaintext.len() > MAX_MESSAGE_LEN {
        return None;
    }
    match cipher {
        Cipher::ChaCha20 => Some(chacha20_seal(key, nonce, aad, plaintext)),
        Cipher::Aes256Gcm => Some(aes256gcm_seal(key, nonce, aad, plaintext)),
    }
}

/// The plaintext that `open` returns for the given input.
pub open spec fn open_result(
    cipher: Cipher,
    key: Seq<u8>,
    nonce: Seq<u8>,
    aad: Seq<u8>,
    sealed: Seq<u8>,
) -> Option<Seq<u8>> {
    if key.len() == KEY_LEN && nonce.len() == NONCE_LEN {
        opened(cipher, key, nonce, aad, sealed)
    } else {
        None
    }
}

/// Opens `sealed`; `None` is the authentication failure.
pub fn open(cipher: Cipher, key: &[u8], nonce: &[u8], aad: &[u8], sealed: &[u8]) -> (out: Option<
    Vec<u8>,
>)
    ensures
        out matches Some(p) ==> open_result(cipher, key@, nonce@, aad@, sealed@) == Some(p@),
        out is None ==> open_result(cipher, key@, nonce@, aad@, sealed@) is None,
        out matches Some(p) ==> p@.len() + TAG_LEN == sealed@.len(),
{
    if key.len() != KEY_LEN || nonce.len() != NONCE_LEN {
        return None;
    }
    match cipher {
        Cipher::ChaCha20 => chacha20_open(key, nonce, aad, sealed),
        Cipher::Aes256Gcm => aes256gcm_open(key, nonce, aad, sealed),
    }
}

/// What a sealed record adds to its plaintext: the nonce in front, the tag behind.
pub const RECORD_OVERHEAD: usize = 28;

/// A record made with a given nonce: the nonce, then the sealed plaintext.
pub open spec fn record_of(
    cipher: Cipher,
    key: Seq<u8>,
    nonce: Seq<u8>,
    aad: Seq<u8>,
    plaintext: Seq<u8>,
) -> Seq<u8> {
    nonce + sealed(cipher, key, nonce, aad, plaintext)
}

/// The plaintext of a record, or `None` where it is too short or does not
/// authenticate under `key` and `aad`.
pub open spec fn record_plain(cipher: Cipher, key: Seq<u8>, aad: Seq<u8>, record: Seq<u8>) -> Option<
    Seq<u8>,
> {
    if key.len() == KEY_LEN && record.len() >= RECORD_OVERHEAD {
        opened(
            cipher,
            key,
            record.subrange(0, NONCE_LEN as int),
            aad,
            record.subrange(NONCE_LEN as int, record.len() as int),
        )
    } else {
        None
    }
}

/// Seals `plaintext` into a record under the given nonce.
pub fn seal_record_with(
    cipher: Cipher,
    key: &[u8],
    nonce: &[u8],
    aad: &[u8],
    plaintext: &[u8],
) -> (out: Vec<u8>)
    requires
        sealable(key@, nonce@, aad@, plaintext@),
    ensures
        out@ == record_of(cipher, key@, nonce@, aad@, plaintext@),
        out@.len() == plaintext@.len() + RECORD_OVERHEAD,
        record_plain(cipher, key@, aad@, out@) == Some(plaintext@),
{
    let body = match cipher {
        Cipher::ChaCha20 => chacha20_seal(key, nonce, aad, plaintext),
        Cipher::Aes256Gcm => aes256gcm_seal(key, nonce, aad, plaintext),
    };
    let mut out: Vec<u8> = Vec::new();
    append(&mut out, nonce);
    append(&mut out, body.as_slice());
    proof {
        assert(out@.subrange(0, NONCE_LEN as int) == nonce@);
        assert(out@.subrange(NONCE_LEN as int, out@.len() as int) == body@);
    }
    out
}

/// Seals `plaintext` into a record under a nonce drawn at random.
pub fn seal_record(cipher: Cipher, key: &[u8], aad: &[u8], plaintext: &[u8]) -> (out: Vec<u8>)
    requires
        key@.len() == KEY_LEN,
        aad@.len() <= MAX_MESSAGE_LEN,
        plaintext@.len() <= MAX_MESSAGE_LEN,
    ensures
        out@ == record_of(cipher, key@, out@.subrange(0, NONCE_LEN as int), aad@, plaintext@),
        out@.len() == plaintext@.len() + RECORD_OVERHEAD,
        record_plain(cipher, key@, aad@, out@) == Some(plaintext@),
{
    let nonce = random_bytes(NONCE_LEN);
    let out = seal_record_with(cipher, key, nonce.as_slice(), aad, plaintext);
    assert(out@.subrange(0, NONCE_LEN as int) == nonce@);
    out
}

/// Opens a record; `None` is the authentication failure.
pub fn open_record(cipher: Cipher, key: &[u8], aad: &[u8], record: &[u8]) -> (out: Option<Vec<u8>>)
    ensures
        out matches Some(p) ==> record_plain(cipher, key@, aad@, record@) == Some(p@),
        out is None ==> record_plain(cipher, key@, aad@, record@) is None,
        out matches Some(p) ==> p@.len() + RECORD_OVERHEAD == record@.len(),
{
    if key.len() != KEY_LEN || record.len() < RECORD_OVERHEAD {
        return None;
    }
    let nonce = slice_subrange(record, 0, NONCE_LEN);
    let body = slice_subrange(record, NONCE_LEN, record.len());
    match cipher {
        Cipher::ChaCha20 => chacha20_open(key, nonce, aad, body),
        Cipher::Aes256Gcm => aes256gcm_open(key, nonce, aad, body),
    }
}

} // verus!
