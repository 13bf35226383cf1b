//! The name codec: file names are sealed under the master key and written in
//! the URL-safe base64 alphabet, so that what stands on disk is safely formed
//! and says nothing of the name.
use base64::engine::general_purpose::URL_SAFE_NO_PAD;
use base64::Engine;
use vstd::prelude::*;

use crate::cipher::{
    open_record, record_plain, seal_record, Cipher, KEY_LEN, };

verus! {

/// Longest name, in bytes, that a directory takes.
pub const MAX_NAME_LEN: usize = 163;

/// Longest name that stands on disk: the host's limit on file names.
pub const MAX_DISK_NAME_LEN: usize = 255;

/// The URL-safe base64 text of `bytes`, without padding, as ASCII bytes.
pub uninterp spec fn base64url_text(bytes: Seq<u8>) -> Seq<u8>;

/// The bytes that a URL-safe base64 text without padding stands for, or
/// `None` where the text is none.
pub uninterp spec fn base64url_bytes(text: Seq<u8>) -> Option<Seq<u8>>;

/// Length of the unpadded base64 text of `n` bytes.
pub open spec fn base64_len(n: int) -> int {
    (n / 3) * 4 + if n % 3 == 0 {
        0int
    } else {
        n % 3 + 1
    }
}

/// Whether `c` is a letter, a digit, `-` or `_`.
pub open spec fn is_base64url_char(c: u8) -> bool {
    ||| 0x41 <= c <= 0x5a
    ||| 0x61 <= c <= 0x7a
    ||| 0x30 <= c <= 0x39
    ||| c == 0x2d
    ||| c == 0x5f
}

/// `Engine::encode` of the `base64` crate on `URL_SAFE_NO_PAD`. The text has
/// the length that base64 without padding gives, holds only characters of the
/// URL-safe alphabet, and decodes to the bytes it was made from.
#[verifier::external_body]
fn base64url_encode(bytes: &[u8]) -> (text: Vec<u8>)
    requires
        bytes@.len() <= 0x4000_0000,
    ensures
        text@ == base64url_text(bytes@),
        text@.len() == base64_len(bytes@.len() as int),
        forall|i: int| 0 <= i < text@.len() ==> is_base64url_char(#[trigger] text@[i]),
        base64url_bytes(text@) == Some(bytes@),
{
    URL_SAFE_NO_PAD.encode(bytes).into_bytes()
}

/// `Engine::decode` of the `base64` crate on `URL_SAFE_NO_PAD`.
#[verifier::external_body]
fn base64url_decode(text: &[u8]) -> (bytes: Option<Vec<u8>>)
    ensures
        bytes matches Some(b) ==> base64url_bytes(text@) == Some(b@),
        bytes is None ==> base64url_bytes(text@) is None,
{
    match URL_SAFE_NO_PAD.decode(text) {
        Ok(bytes) => Some(bytes),
        Err(_) => None,
    }
}

/// Whether a directory takes `name` for an entry: not empty, not too long,
/// free of `/` and of the zero byte, and neither `.` nor `..`.
pub open spec fn valid_name(name: Seq<u8>) -> bool {
    &&& 1 <= name.len() <= MAX_NAME_LEN
    &&& forall|i: int| 0 <= i < name.len() ==> #[trigger] name[i] != 0x2f && name[i] != 0
    &&& name != seq![0x2eu8]
    &&& name != seq![0x2eu8, 0x2eu8]
}

/// Whether `name` is the name `.`.
pub open spec fn is_dot(name: Seq<u8>) -> bool {
    name == seq![0x2eu8]
}

/// Whether `name` is the name `..`.
pub open spec fn is_dot_dot(name: Seq<u8>) -> bool {
    name == seq![0x2eu8, 0x2eu8]
}

/// Tests whether `name` is `.`.
pub fn name_is_dot(name: &[u8]) -> (dot: bool)
    ensures
        dot == is_dot(name@),
{
    let dot = name.len() == 1 && name[0] == 0x2e;
    proof {
        if dot {
            assert(name@ =~= seq![0x2eu8]);
        } else if name@.len() == 1 {
            assert(seq![0x2eu8][0] == 0x2e);
        }
    }
    dot
}

/// Tests whether `name` is `..`.
pub fn name_is_dot_dot(name: &[u8]) -> (dots: bool)
    ensures
        dots == is_dot_dot(name@),
{
    let dots = name.len() == 2 && name[0] == 0x2e && name[1] == 0x2e;
    proof {
        let want = seq![0x2eu8, 0x2eu8];
        if dots {
            assert(name@ =~= want);
        } else if name@.len() == 2 {
            assert(want[0] == 0x2e && want[1] == 0x2e);
        }
    }
    dots
}

/// Tests whether a directory takes `name` for an entry.
pub fn check_name(name: &[u8]) -> (ok: bool)
    ensures
        ok == valid_name(name@),
{
    if name.len() < 1 || name.len() > MAX_NAME_LEN {
        return false;
    }
    if name_is_dot(name) || name_is_dot_dot(name) {
        return false;
    }
    let mut i: usize = 0;
    while i < name.len()
        invariant
            i <= name@.len(),
            forall|j: int| 0 <= j < i ==> #[trigger] name@[j] != 0x2f && name@[j] != 0,
        decreases name@.len() - i,
    {
        if name[i] == 0x2f || name[i] == 0 {
            return false;
        }
        i += 1;
    }
    true
}

/// Whether `text` can stand on disk as a file name: not empty, within the
/// host's limit, and made of URL-safe characters only.
pub open spec fn valid_disk_name(text: Seq<u8>) -> bool {
    &&& 1 <= text.len() <= MAX_DISK_NAME_LEN
    &&& forall|i: int| 0 <= i < text.len() ==> is_base64url_char(#[trigger] text[i])
}

/// The name behind an on-disk name: the text must be base64, the record
/// behind it must authenticate, and what it holds must be a name that a
/// directory takes.
pub open spec fn plain_name(cipher: Cipher, key: Seq<u8>, disk: Seq<u8>) -> Option<Seq<u8>> {
    match base64url_bytes(disk) {
        Some(record) => match record_plain(cipher, key, Seq::empty(), record) {
            Some(name) => if valid_name(name) {
                Some(name)
            } else {
                None
            },
            None => None,
        },
        None => None,
    }
}

/// Encrypts `name` into a fresh on-disk name.
pub fn encrypt_name(cipher: Cipher, key: &[u8], name: &[u8]) -> (disk: Vec<u8>)
    requires
        key@.len() == KEY_LEN,
        valid_name(name@),
    ensures
        plain_name(cipher, key@, disk@) == Some(name@),
        valid_disk_name(disk@),
{
    let aad: Vec<u8> = Vec::new();
    let record = seal_record(cipher, key, aad.as_slice(), name);
    assert(aad@ =~= Seq::<u8>::empty());
    let disk = base64url_encode(record.as_slice());
    assert(base64_len(record@.len() as int) <= MAX_DISK_NAME_LEN);
    assert(base64_len(record@.len() as int) >= 1);
    disk
}

/// Decrypts an on-disk name; `None` where it is not the name of an entry.
pub fn decrypt_name(cipher: Cipher, key: &[u8], disk: &[u8]) -> (name: Option<Vec<u8>>)
    ensures
        name matches Some(n) ==> plain_name(cipher, key@, disk@) == Some(n@),
        name is None ==> plain_name(cipher, key@, disk@) is None,
{
    let record = match base64url_decode(disk) {
        Some(record) => record,
        None => { return None; },
    };
    let aad: Vec<u8> = Vec::new();
    assert(aad@ =~= Seq::<u8>::empty());
    match open_record(cipher, key, aad.as_slice(), record.as_slice()) {
        Some(name) => if check_name(name.as_slice()) {
            Some(name)
        } else {
            None
        },
        None => None,
    }
}

} // verus!
