//! An encrypted file system engine: every file, name and attribute is kept as
//! authenticated ciphertext, unlocked by a password.
use vstd::prelude::*;
use vstd::string::StringExecFns;

pub mod attr;
pub mod bytes;
pub mod cipher;
pub mod content;
pub mod dir;
pub mod error;
pub mod fs;
pub mod keystore;
pub mod laws;
pub mod model;
pub mod names;
pub mod secret;
pub mod store;

verus! {

/// The service under which passwords are kept in the host's keyring.
pub const KEYRING_SERVICE: &'static str = "rencfs";

/// What the user name of every keyring entry starts with.
pub const KEYRING_USER: &'static str = "encrypted_fs";

/// The user name of the keyring entry for a data directory's suffix: the
/// common start, a dot, and the suffix.
pub fn keyring_user(suffix: &str) -> (user: String)
    ensures
        user@ == KEYRING_USER@ + "."@ + suffix@,
{
    KEYRING_USER.to_owned().concat(".").concat(suffix)
}

/// The directive that sets the level at which this crate logs: the crate's
/// name, an equals sign, and the level.
pub fn log_directive(level: &str) -> (directive: String)
    ensures
        directive@ == KEYRING_SERVICE@ + "="@ + level@,
{
    KEYRING_SERVICE.to_owned().concat("=").concat(level)
}

/// Whether a build with the given debug-assertions setting counts as a debug build.
pub fn is_debug(debug_assertions: bool) -> (debug: bool)
    ensures
        debug == debug_assertions,
{
    debug_assertions
}

} // verus!
