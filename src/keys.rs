//! The vault key, derived from a passphrase with Argon2i and a random salt
//! that is kept beside the vault.
use crate::envelope::VaultKey;
use crate::record::Error;
use orion::errors::UnknownCryptoError;
use vstd::prelude::*;

verus! {

/// Argon2i passes over memory.
pub const KDF_ITERATIONS: u32 = 3;

/// Argon2i memory, in kibibytes.
pub const KDF_MEMORY_KIB: u32 = 19456;

/// Bytes of salt that a new vault gets.
pub const SALT_LEN: usize = 16;

/// Longest passphrase or salt that the key derivation takes: Argon2i
/// records their lengths in 32 bits.
pub const MAX_INPUT_LEN: u32 = 0xFFFF_FFFF;

/// Shortest salt that the key derivation takes.
pub const MIN_SALT_LEN: usize = 8;

/// The 32-byte Argon2i key for a passphrase, a salt and the cost parameters.
pub uninterp spec fn argon2i_key_of(
    passphrase: Seq<u8>,
    salt: Seq<u8>,
    iterations: u32,
    memory_kib: u32,
) -> Seq<u8>;

/// Relies on orion::kdf::derive_key, with orion::kdf::Password::from_slice and
/// orion::kdf::Salt::from_slice to carry the inputs: a 32-byte key that depends
/// on the inputs alone (the memory is bounded here, as it is allocated);
/// an empty passphrase, a salt under 8 bytes, fewer than 3 iterations or
/// under 8 KiB of memory are refused, and inputs within those bounds whose
/// lengths fit in 32 bits are accepted.
#[verifier::external_body]
fn argon2i_derive(passphrase: &[u8], salt: &[u8], iterations: u32, memory_kib: u32) -> (r: Result<
    Vec<u8>,
    UnknownCryptoError,
>)
    requires
        memory_kib <= KDF_MEMORY_KIB,
    ensures
        passphrase@.len() == 0 || salt@.len() < 8 || iterations < 3 || memory_kib < 8 ==> r is Err,
        0 < passphrase@.len() <= 0xFFFF_FFFF && 8 <= salt@.len() <= 0xFFFF_FFFF && iterations >= 3
            && memory_kib >= 8 ==> r is Ok,
        r matches Ok(k) ==> k@ == argon2i_key_of(passphrase@, salt@, iterations, memory_kib)
            && k@.len() == 32,
{
    let password = orion::kdf::Password::from_slice(passphrase)?;
    let salt = orion::kdf::Salt::from_slice(salt)?;
    let key = orion::kdf::derive_key(&password, &salt, iterations, memory_kib, 32)?;
    Ok(key.unprotected_as_bytes().to_vec())
}

/// Relies on orion::kdf::Salt::default: 16 bytes from the system's secure
/// random source.
#[verifier::external_body]
fn random_salt() -> (r: Vec<u8>)
    ensures
        r@.len() == SALT_LEN,
{
    orion::kdf::Salt::default().as_ref().to_vec()
}

/// A fresh random salt for a new vault.
pub fn new_salt() -> (r: Vec<u8>)
    ensures
        r@.len() == SALT_LEN,
{
    random_salt()
}

/// The vault key for `passphrase` and the vault's `salt`.
pub fn derive_key(passphrase: &[u8], salt: &[u8]) -> (r: Result<VaultKey, Error>)
    ensures
        r is Ok <==> 0 < passphrase@.len() <= MAX_INPUT_LEN && MIN_SALT_LEN <= salt@.len()
            <= MAX_INPUT_LEN,
        match r {
            Ok(k) => k@ == argon2i_key_of(passphrase@, salt@, KDF_ITERATIONS, KDF_MEMORY_KIB),
            Err(e) => e == Error::KeyDerivationError,
        },
{
    if passphrase.len() == 0 || passphrase.len() as u64 > MAX_INPUT_LEN as u64 || salt.len()
        < MIN_SALT_LEN || salt.len() as u64 > MAX_INPUT_LEN as u64 {
        return Err(Error::KeyDerivationError);
    }
    match argon2i_derive(passphrase, salt, KDF_ITERATIONS, KDF_MEMORY_KIB) {
        Ok(bytes) => match VaultKey::from_bytes(bytes) {
            Some(k) => Ok(k),
            None => Err(Error::KeyDerivationError),
        },
        Err(_) => Err(Error::KeyDerivationError),
    }
}

} // verus!
