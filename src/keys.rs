//! Key derivation: the vault's fixed Argon2 parameters and a 32-byte key from a
//! secret and a salt.

use vstd::prelude::*;
use crate::error::VaultError;
use crate::primitives::{argon2_hash, argon2_hash_of, KdfParams, KdfVariant};

verus! {

/// The fixed Argon2id parameters every vault uses: 32-byte output, 8 lanes,
/// 16 MiB of memory, 8 passes. They are part of the masterfile format.
pub open spec fn vault_kdf_params() -> KdfParams {
    KdfParams {
        variant: KdfVariant::Argon2id,
        hash_length: 32,
        lanes: 8,
        mem_cost: 16384,
        time_cost: 8,
    }
}

/// The vault's key derivation parameters.
pub fn argon2_config() -> (r: KdfParams)
    ensures
        r == vault_kdf_params(),
{
    KdfParams {
        variant: KdfVariant::Argon2id,
        hash_length: 32,
        lanes: 8,
        mem_cost: 16 * 1024,
        time_cost: 8,
    }
}

/// Relies on `TryFrom<Vec<T>>` for `[T; N]`: it succeeds exactly when the
/// vector has `N` elements and keeps them in order.
#[verifier::external_body]
fn vec_to_array<T, const N: usize>(v: Vec<T>) -> (r: Result<[T; N], Vec<T>>)
    ensures
        r is Ok <==> v@.len() == N,
        r is Ok ==> r->Ok_0@ == v@,
{
    v.try_into()
}

/// Moves a vector of exactly `N` elements into an array.
pub fn into_array<T, const N: usize>(v: Vec<T>) -> (r: [T; N])
    requires
        v@.len() == N,
    ensures
        r@ == v@,
{
    match vec_to_array(v) {
        Ok(a) => a,
        Err(_) => vstd::pervasive::unreached(),
    }
}

/// The 32-byte key that the vault's Argon2id parameters derive from `secret`
/// and `salt`.
pub open spec fn derived_key(secret: Seq<u8>, salt: Seq<u8>) -> Seq<u8> {
    argon2_hash_of(secret, salt, vault_kdf_params())
}

/// Derives a 32-byte key from `secret` and `salt` with the vault's parameters.
pub fn derive_key(secret: &[u8], salt: &[u8]) -> (r: Result<[u8; 32], VaultError>)
    ensures
        secret@.len() <= 0xFFFF_FFFF && 8 <= salt@.len() <= 0xFFFF_FFFF ==> r is Ok,
        r is Ok ==> r->Ok_0@ == derived_key(secret@, salt@),
        r is Err ==> r == Err::<[u8; 32], VaultError>(VaultError::KeyDerivation),
{
    let params = argon2_config();
    match argon2_hash(secret, salt, &params) {
        Ok(h) => Ok(into_array(h)),
        Err(_) => Err(VaultError::KeyDerivation),
    }
}

} // verus!
