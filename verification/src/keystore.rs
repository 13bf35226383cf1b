//! The key store: the master key lies in the data directory sealed under a
//! key that is derived from the password.
use argon2::{Algorithm, Argon2, Params, Version};
use vstd::bytes::{spec_u64_to_le_bytes, u64_from_le_bytes};
use vstd::prelude::*;
use vstd::slice::slice_subrange;

use crate::bytes::{append, encode_words, lemma_words_bytes, word_at, words_bytes};
use crate::cipher::{
    open_record, record_of, record_plain, seal_record_with, Cipher, KEY_LEN, MAX_MESSAGE_LEN,
    NONCE_LEN,
};
use crate::error::FsError;
use crate::secret::{random_bytes, SecretBytes};

verus! {

/// Length of the salt of the key derivation.
pub const SALT_LEN: usize = 16;

/// Where the sealed master key starts in the key file: behind the salt and
/// the three cost parameters.
pub const KEY_RECORD_START: usize = 40;

/// Length of a key file.
pub const KEY_FILE_LEN: usize = 100;

/// Longest password that is taken.
pub const MAX_PASSWORD_LEN: usize = 0x4000_0000;

/// Memory cost, in KiB, of the derivation for a new key file.
pub const DEFAULT_M_COST: u32 = 19456;

/// Number of passes of the derivation for a new key file.
pub const DEFAULT_T_COST: u32 = 2;

/// Number of lanes of the derivation for a new key file.
pub const DEFAULT_P_COST: u32 = 1;

/// Largest memory cost that a key file may ask for: 1 GiB.
pub const MAX_M_COST: u32 = 0x10_0000;

/// Largest number of passes that a key file may ask for.
pub const MAX_T_COST: u32 = 64;

/// Largest number of lanes that a key file may ask for.
pub const MAX_P_COST: u32 = 64;

/// The cost parameters of the key derivation.
#[derive(Clone, Copy, Debug, PartialEq, Eq, Structural)]
pub struct KdfParams {
    pub m_cost: u32,
    pub t_cost: u32,
    pub p_cost: u32,
}

/// The Argon2id hash (version 0x13) of 32 bytes of `password` with `salt`.
pub uninterp spec fn argon2id_key(
    password: Seq<u8>,
    salt: Seq<u8>,
    m_cost: u32,
    t_cost: u32,
    p_cost: u32,
) -> Seq<u8>;

/// Whether the derivation runs with these costs: at least one pass and one
/// lane, eight KiB of memory for each lane, and none above its limit.
pub open spec fn valid_kdf(p: KdfParams) -> bool {
    &&& 1 <= p.t_cost <= MAX_T_COST
    &&& 1 <= p.p_cost <= MAX_P_COST
    &&& 8 * p.p_cost <= p.m_cost <= MAX_M_COST
}

/// `Argon2::hash_password_into` of the `argon2` crate, on a context made by
/// `Argon2::new` for Argon2id in version 0x13 with `Params::new`. With costs
/// and lengths as required neither fails, and 32 bytes come back.
#[verifier::external_body]
fn argon2id_derive(password: &[u8], salt: &[u8], p: KdfParams) -> (key: Vec<u8>)
    requires
        password@.len() <= MAX_PASSWORD_LEN,
        8 <= salt@.len() <= MAX_MESSAGE_LEN,
        valid_kdf(p),
    ensures
        key@ == argon2id_key(password@, salt@, p.m_cost, p.t_cost, p.p_cost),
        key@.len() == KEY_LEN,
{
    let mut key = vec![0u8; 32];
    if let Ok(params) = Params::new(p.m_cost, p.t_cost, p.p_cost, Some(32)) {
        let context = Argon2::new(Algorithm::Argon2id, Version::V0x13, params);
        let _ = context.hash_password_into(password, salt, &mut key);
    }
    key
}

/// The cost parameters that a key file names, or `None` where the file has
/// not the form of a key file.
pub open spec fn key_file_params(file: Seq<u8>) -> Option<KdfParams> {
    if file.len() == KEY_FILE_LEN && word_at(file, 2) <= u32::MAX && word_at(file, 3) <= u32::MAX
        && word_at(file, 4) <= u32::MAX {
        let p = KdfParams {
            m_cost: word_at(file, 2) as u32,
            t_cost: word_at(file, 3) as u32,
            p_cost: word_at(file, 4) as u32,
        };
        if valid_kdf(p) {
            Some(p)
        } else {
            None
        }
    } else {
        None
    }
}

/// The key that `password` gives for a key file with parameters `p`.
pub open spec fn password_key(password: Seq<u8>, file: Seq<u8>, p: KdfParams) -> Seq<u8> {
    argon2id_key(password, file.subrange(0, SALT_LEN as int), p.m_cost, p.t_cost, p.p_cost)
}

/// What unlocking a key file with a password gives: the master key, or
/// `InvalidDataDirStructure` where the file has not the form of a key file,
/// or `InvalidPassword` where the key derived from the password does not
/// open the sealed master key. The sealed master key is bound to the salt
/// and the cost parameters in front of it.
pub open spec fn unlocked(cipher: Cipher, password: Seq<u8>, file: Seq<u8>) -> Result<
    Seq<u8>,
    FsError,
> {
    match key_file_params(file) {
        None => Err(FsError::InvalidDataDirStructure),
        Some(p) => if password.len() > MAX_PASSWORD_LEN {
            Err(FsError::InvalidPassword)
        } else {
            match record_plain(
                cipher,
                password_key(password, file, p),
                file.subrange(0, KEY_RECORD_START as int),
                file.subrange(KEY_RECORD_START as int, KEY_FILE_LEN as int),
            ) {
                Some(master) => if master.len() == KEY_LEN {
                    Ok(master)
                } else {
                    Err(FsError::InvalidPassword)
                },
                None => Err(FsError::InvalidPassword),
            }
        },
    }
}

/// Reads the cost parameters of a key file.
fn read_params(file: &[u8]) -> (out: Option<KdfParams>)
    ensures
        out == key_file_params(file@),
{
    if file.len() != KEY_FILE_LEN {
        return None;
    }
    let m = u64_from_le_bytes(slice_subrange(file, 16, 24));
    let t = u64_from_le_bytes(slice_subrange(file, 24, 32));
    let p = u64_from_le_bytes(slice_subrange(file, 32, 40));
    if m > u32::MAX as u64 || t > u32::MAX as u64 || p > u32::MAX as u64 {
        return None;
    }
    let params = KdfParams { m_cost: m as u32, t_cost: t as u32, p_cost: p as u32 };
    if 1 <= params.t_cost && params.t_cost <= MAX_T_COST && 1 <= params.p_cost && params.p_cost
        <= MAX_P_COST && 8 * params.p_cost <= params.m_cost && params.m_cost <= MAX_M_COST {
        Some(params)
    } else {
        None
    }
}

/// Unlocks a key file with a password.
pub fn unlock(cipher: Cipher, password: &SecretBytes, file: &[u8]) -> (out: Result<
    SecretBytes,
    FsError,
>)
    ensures
        out matches Ok(master) ==> unlocked(cipher, password@, file@) == Ok::<Seq<u8>, FsError>(
            master@,
        ),
        out matches Err(e) ==> unlocked(cipher, password@, file@) == Err::<Seq<u8>, FsError>(e),
{
    let params = match read_params(file) {
        Some(params) => params,
        None => { return Err(FsError::InvalidDataDirStructure); },
    };
    let pw = password.expose();
    if pw.len() > MAX_PASSWORD_LEN {
        return Err(FsError::InvalidPassword);
    }
    let kek = SecretBytes::new(argon2id_derive(pw, slice_subrange(file, 0, SALT_LEN), params));
    let head = slice_subrange(file, 0, KEY_RECORD_START);
    let record = slice_subrange(file, KEY_RECORD_START, KEY_FILE_LEN);
    match open_record(cipher, kek.expose(), head, record) {
        Some(master) => {
            if master.len() == KEY_LEN {
                Ok(SecretBytes::new(master))
            } else {
                Err(FsError::InvalidPassword)
            }
        },
        None => Err(FsError::InvalidPassword),
    }
}

/// Draws a master key at random.
pub fn new_master_key() -> (master: SecretBytes)
    ensures
        master@.len() == KEY_LEN,
{
    SecretBytes::new(random_bytes(KEY_LEN))
}

/// The cost parameters of the derivation for a new key file.
pub open spec fn default_kdf() -> KdfParams {
    KdfParams { m_cost: DEFAULT_M_COST, t_cost: DEFAULT_T_COST, p_cost: DEFAULT_P_COST }
}

/// What stands in a key file in front of the sealed master key: the salt,
/// then the three cost parameters as words.
pub open spec fn key_file_head(salt: Seq<u8>, p: KdfParams) -> Seq<u8> {
    salt + words_bytes(seq![p.m_cost as u64, p.t_cost as u64, p.p_cost as u64])
}

/// The key file that seals `master` for `password` with the given salt and
/// nonce: the head, then the master key sealed under the key derived from
/// the password, bound to the head.
pub open spec fn key_file_of(
    cipher: Cipher,
    password: Seq<u8>,
    master: Seq<u8>,
    salt: Seq<u8>,
    nonce: Seq<u8>,
) -> Seq<u8> {
    let p = default_kdf();
    let head = key_file_head(salt, p);
    head + record_of(
        cipher,
        argon2id_key(password, salt, p.m_cost, p.t_cost, p.p_cost),
        nonce,
        head,
        master,
    )
}

/// Seals `master` under a key derived from `password` with the given salt,
/// under the given nonce, and lays out the key file.
pub fn lock_with(
    cipher: Cipher,
    password: &SecretBytes,
    master: &SecretBytes,
    salt: &[u8],
    nonce: &[u8],
) -> (file: Vec<u8>)
    requires
        password@.len() <= MAX_PASSWORD_LEN,
        master@.len() == KEY_LEN,
        salt@.len() == SALT_LEN,
        nonce@.len() == NONCE_LEN,
    ensures
        file@ == key_file_of(cipher, password@, master@, salt@, nonce@),
        file@.len() == KEY_FILE_LEN,
        unlocked(cipher, password@, file@) == Ok::<Seq<u8>, FsError>(master@),
{
    let params = KdfParams {
        m_cost: DEFAULT_M_COST,
        t_cost: DEFAULT_T_COST,
        p_cost: DEFAULT_P_COST,
    };
    let kek = SecretBytes::new(argon2id_derive(password.expose(), salt, params));
    let costs: Vec<u64> = vec![
        params.m_cost as u64,
        params.t_cost as u64,
        params.p_cost as u64,
    ];
    let cost_bytes = encode_words(costs.as_slice());
    let mut file: Vec<u8> = Vec::new();
    append(&mut file, salt);
    append(&mut file, cost_bytes.as_slice());
    proof {
        assert(costs@ =~= seq![params.m_cost as u64, params.t_cost as u64, params.p_cost as u64]);
        lemma_words_bytes(costs@);
    }
    let ghost head = file@;
    let record = seal_record_with(cipher, kek.expose(), nonce, file.as_slice(), master.expose());
    append(&mut file, record.as_slice());
    proof {
        vstd::bytes::lemma_auto_spec_u64_to_from_le_bytes();
        assert(file@.subrange(0, SALT_LEN as int) == salt@);
        assert(file@.subrange(0, KEY_RECORD_START as int) == head);
        assert(file@.subrange(KEY_RECORD_START as int, KEY_FILE_LEN as int) == record@);
        assert forall|i: int| 0 <= i < 3 implies word_at(file@, 2 + i) == #[trigger] costs@[i] by {
            assert(file@.subrange(8 * (2 + i), 8 * (2 + i) + 8) == cost_bytes@.subrange(
                8 * i,
                8 * i + 8,
            ));
            assert(cost_bytes@.subrange(8 * i, 8 * i + 8) == spec_u64_to_le_bytes(costs@[i]));
        }
        assert(word_at(file@, 2) == costs@[0]);
        assert(word_at(file@, 3) == costs@[1]);
        assert(word_at(file@, 4) == costs@[2]);
        assert(key_file_params(file@) == Some(params));
    }
    file
}

/// Seals `master` under a key derived from `password` with a salt and a
/// nonce drawn at random, and lays out the key file.
pub fn lock(cipher: Cipher, password: &SecretBytes, master: &SecretBytes) -> (file: Vec<u8>)
    requires
        password@.len() <= MAX_PASSWORD_LEN,
        master@.len() == KEY_LEN,
    ensures
        file@.len() == KEY_FILE_LEN,
        unlocked(cipher, password@, file@) == Ok::<Seq<u8>, FsError>(master@),
        file@ == key_file_of(
            cipher,
            password@,
            master@,
            file@.subrange(0, SALT_LEN as int),
            file@.subrange(KEY_RECORD_START as int, KEY_RECORD_START + NONCE_LEN),
        ),
{
    let salt = random_bytes(SALT_LEN);
    let nonce = random_bytes(NONCE_LEN);
    let file = lock_with(cipher, password, master, salt.as_slice(), nonce.as_slice());
    proof {
        let p = default_kdf();
        lemma_words_bytes(seq![p.m_cost as u64, p.t_cost as u64, p.p_cost as u64]);
        assert(key_file_head(salt@, p).len() == KEY_RECORD_START);
        assert(file@.subrange(0, SALT_LEN as int) =~= salt@);
        assert(file@.subrange(KEY_RECORD_START as int, KEY_RECORD_START + NONCE_LEN) =~= nonce@);
    }
    file
}

/// What changing the password makes of a key file: a key file that the new
/// password unlocks to the same master key, or the error with which the old
/// password fails, or `InvalidInput` for a new password that is too long.
pub open spec fn rekeyed(
    cipher: Cipher,
    old_password: Seq<u8>,
    new_password: Seq<u8>,
    file: Seq<u8>,
    out: Result<Seq<u8>, FsError>,
) -> bool {
    match unlocked(cipher, old_password, file) {
        Err(e) => out == Err::<Seq<u8>, FsError>(e),
        Ok(master) => if new_password.len() > MAX_PASSWORD_LEN {
            out == Err::<Seq<u8>, FsError>(FsError::InvalidInput)
        } else {
            &&& out matches Ok(next)
            &&& next.len() == KEY_FILE_LEN
            &&& unlocked(cipher, new_password, next) == Ok::<Seq<u8>, FsError>(master)
        },
    }
}

/// Seals the master key of a key file anew, under a key derived from the new
/// password with a fresh salt.
pub fn rekey(
    cipher: Cipher,
    old_password: &SecretBytes,
    new_password: &SecretBytes,
    file: &[u8],
) -> (out: Result<Vec<u8>, FsError>)
    ensures
        rekeyed(
            cipher,
            old_password@,
            new_password@,
            file@,
            match out {
                Ok(next) => Ok(next@),
                Err(e) => Err(e),
            },
        ),
{
    let master = match unlock(cipher, old_password, file) {
        Ok(master) => master,
        Err(e) => { return Err(e); },
    };
    if new_password.expose().len() > MAX_PASSWORD_LEN {
        return Err(FsError::InvalidInput);
    }
    Ok(lock(cipher, new_password, &master))
}

} // verus!
