//! The ways a vault operation can fail.

use vstd::prelude::*;

verus! {

/// Why a vault operation failed.
#[derive(Clone, Copy, Debug, PartialEq, Eq, Structural)]
pub enum VaultError {
    /// Input that is not in the expected shape: a name token without its marker,
    /// with bad hexadecimal, that does not authenticate or that does not decrypt
    /// to UTF-8; a masterfile or an encrypted file of the wrong length.
    Format,
    /// Authenticated decryption of a file's contents or of a masterfile refused
    /// the input: a wrong key or password, or tampered data. (A name token that
    /// does not authenticate is a `Format` error.)
    Authentication,
    /// Sealing refused its input (a message too long for the cipher).
    Crypto,
    /// The key derivation function refused its parameters.
    KeyDerivation,
    /// The operating system's random source failed.
    Randomness,
}

} // verus!
