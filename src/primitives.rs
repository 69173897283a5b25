//! The outside primitives the vault is built on: XChaCha20-Poly1305 (single
//! messages and the STREAM construction), Argon2, the operating system's random
//! source, memory wiping and UTF-8 decoding. Each is a thin call whose contract
//! states what the outside crate's source shows.

use vstd::prelude::*;
use vstd::utf8::*;
use chacha20poly1305::aead::{Aead, NewAead};
use chacha20poly1305::aead::stream::{NewStream, StreamBE32, StreamPrimitive};
use chacha20poly1305::XChaCha20Poly1305;
use rand::RngCore;
use zeroize::Zeroize;

verus! {

/// Bytes that the Poly1305 tag adds to every sealed message.
pub const TAG_LEN: usize = 16;

/// XChaCha20-Poly1305 refuses a message of this many bytes or more
/// (64-byte blocks counted by a 32-bit counter).
pub open spec fn aead_message_limit() -> int {
    64 * 0xFFFF_FFFFint
}

/// What XChaCha20-Poly1305 produces when sealing `plaintext` under `key` and
/// `nonce`: the ciphertext followed by the tag.
pub uninterp spec fn aead_seal_of(key: Seq<u8>, nonce: Seq<u8>, plaintext: Seq<u8>) -> Seq<u8>;

/// What the STREAM construction (big-endian 32-bit counter, one flag byte)
/// over XChaCha20-Poly1305 produces for the chunk at `position`, with `last`
/// marking the final chunk of a stream.
pub uninterp spec fn stream_seal_of(
    key: Seq<u8>,
    prefix: Seq<u8>,
    position: u32,
    last: bool,
    chunk: Seq<u8>,
) -> Seq<u8>;

/// Which Argon2 function a key derivation runs.
#[derive(Clone, Copy, Debug, PartialEq, Eq, Structural)]
pub enum KdfVariant {
    Argon2d,
    Argon2i,
    Argon2id,
}

/// The cost and output parameters of an Argon2 key derivation.
#[derive(Clone, Copy, Debug, PartialEq, Eq, Structural)]
pub struct KdfParams {
    pub variant: KdfVariant,
    pub hash_length: u32,
    pub lanes: u32,
    pub mem_cost: u32,
    pub time_cost: u32,
}

/// The Argon2 output for `password` and `salt` under `params`.
pub uninterp spec fn argon2_hash_of(password: Seq<u8>, salt: Seq<u8>, params: KdfParams) -> Seq<u8>;

/// Parameters and input lengths that Argon2 accepts on every platform.
pub open spec fn kdf_accepts(params: KdfParams, password_len: int, salt_len: int) -> bool {
    &&& 1 <= params.lanes <= 0xFF_FFFF
    &&& 8 <= params.mem_cost <= 0x20_0000
    &&& params.mem_cost >= 8 * params.lanes
    &&& params.time_cost >= 1
    &&& params.hash_length >= 4
    &&& password_len <= 0xFFFF_FFFF
    &&& 8 <= salt_len <= 0xFFFF_FFFF
}

#[verifier::external_type_specification]
#[verifier::external_body]
pub struct ExAeadError(chacha20poly1305::aead::Error);

#[verifier::external_type_specification]
#[verifier::external_body]
pub struct ExArgon2Error(argon2::Error);

#[verifier::external_type_specification]
#[verifier::external_body]
pub struct ExRandError(rand::Error);

#[verifier::external_type_specification]
#[verifier::external_body]
pub struct ExFromUtf8Error(std::string::FromUtf8Error);

/// Relies on `Aead::encrypt` of `XChaCha20Poly1305`: it fails only on a message
/// of `aead_message_limit()` bytes or more, and appends a 16-byte tag.
#[verifier::external_body]
pub(crate) fn aead_seal(key: &[u8; 32], nonce: &[u8; 24], plaintext: &[u8]) -> (r: Result<
    Vec<u8>,
    chacha20poly1305::aead::Error,
>)
    ensures
        r is Ok <==> plaintext@.len() < aead_message_limit(),
        r is Ok ==> r->Ok_0@ == aead_seal_of(key@, nonce@, plaintext@),
        r is Ok ==> r->Ok_0@.len() == plaintext@.len() + TAG_LEN,
{
    XChaCha20Poly1305::new(key.into()).encrypt(nonce.into(), plaintext)
}

/// Relies on `Aead::decrypt` of `XChaCha20Poly1305`: it returns the plaintext
/// exactly when the input is what sealing that plaintext under the same key and
/// nonce produces, and fails otherwise.
#[verifier::external_body]
pub(crate) fn aead_open(key: &[u8; 32], nonce: &[u8; 24], ciphertext: &[u8]) -> (r: Result<
    Vec<u8>,
    chacha20poly1305::aead::Error,
>)
    ensures
        r is Ok ==> r->Ok_0@.len() < aead_message_limit(),
        r is Ok ==> r->Ok_0@.len() + TAG_LEN == ciphertext@.len(),
        r is Ok ==> aead_seal_of(key@, nonce@, r->Ok_0@) == ciphertext@,
        forall|p: Seq<u8>|
            p.len() < aead_message_limit() && #[trigger] aead_seal_of(key@, nonce@, p)
                == ciphertext@ ==> (r is Ok && r->Ok_0@ == p),
{
    XChaCha20Poly1305::new(key.into()).decrypt(nonce.into(), ciphertext)
}

/// Relies on `StreamPrimitive::encrypt` of `StreamBE32<XChaCha20Poly1305>`: one
/// chunk sealed at a given counter position, with the last-block flag; it fails
/// only on a chunk of `aead_message_limit()` bytes or more.
#[verifier::external_body]
pub(crate) fn stream_seal(
    key: &[u8; 32],
    prefix: &[u8; 19],
    position: u32,
    last: bool,
    chunk: &[u8],
) -> (r: Result<Vec<u8>, chacha20poly1305::aead::Error>)
    ensures
        r is Ok <==> chunk@.len() < aead_message_limit(),
        r is Ok ==> r->Ok_0@ == stream_seal_of(key@, prefix@, position, last, chunk@),
        r is Ok ==> r->Ok_0@.len() == chunk@.len() + TAG_LEN,
{
    let stream = StreamBE32::from_aead(XChaCha20Poly1305::new(key.into()), prefix.into());
    stream.encrypt(position, last, chunk)
}

/// Relies on `StreamPrimitive::decrypt` of `StreamBE32<XChaCha20Poly1305>`: it
/// returns the chunk exactly when the input is what sealing that chunk at the
/// same position, flag, key and prefix produces, and fails otherwise.
#[verifier::external_body]
pub(crate) fn stream_open(
    key: &[u8; 32],
    prefix: &[u8; 19],
    position: u32,
    last: bool,
    sealed: &[u8],
) -> (r: Result<Vec<u8>, chacha20poly1305::aead::Error>)
    ensures
        r is Ok ==> r->Ok_0@.len() < aead_message_limit(),
        r is Ok ==> r->Ok_0@.len() + TAG_LEN == sealed@.len(),
        r is Ok ==> stream_seal_of(key@, prefix@, position, last, r->Ok_0@) == sealed@,
        forall|p: Seq<u8>|
            p.len() < aead_message_limit() && #[trigger] stream_seal_of(
                key@,
                prefix@,
                position,
                last,
                p,
            ) == sealed@ ==> (r is Ok && r->Ok_0@ == p),
{
    let stream = StreamBE32::from_aead(XChaCha20Poly1305::new(key.into()), prefix.into());
    stream.decrypt(position, last, sealed)
}

/// Relies on `argon2::hash_raw` (rust-argon2): it succeeds on parameters that
/// `Context::new` accepts and returns `hash_length` bytes.
#[verifier::external_body]
pub(crate) fn argon2_hash(password: &[u8], salt: &[u8], params: &KdfParams) -> (r: Result<
    Vec<u8>,
    argon2::Error,
>)
    ensures
        kdf_accepts(*params, password@.len() as int, salt@.len() as int) ==> r is Ok,
        r is Ok ==> r->Ok_0@ == argon2_hash_of(password@, salt@, *params),
        r is Ok ==> r->Ok_0@.len() == params.hash_length,
{
    let variant = match params.variant {
        KdfVariant::Argon2d => argon2::Variant::Argon2d,
        KdfVariant::Argon2i => argon2::Variant::Argon2i,
        KdfVariant::Argon2id => argon2::Variant::Argon2id,
    };
    let config = argon2::Config {
        variant,
        hash_length: params.hash_length,
        lanes: params.lanes,
        mem_cost: params.mem_cost,
        time_cost: params.time_cost,
        ..Default::default()
    };
    argon2::hash_raw(password, salt, &config)
}

/// Relies on `OsRng::try_fill_bytes` (rand): fills the buffer from the
/// operating system's random source, or reports that it could not.
#[verifier::external_body]
pub(crate) fn fill_random<const N: usize>(buf: &mut [u8; N]) -> (r: Result<(), rand::Error>) {
    rand::rngs::OsRng.try_fill_bytes(buf)
}

/// Relies on `Zeroize` for byte arrays: every byte is overwritten with zero.
#[verifier::external_body]
pub(crate) fn wipe<const N: usize>(buf: &mut [u8; N])
    ensures
        final(buf)@ == Seq::new(N as nat, |i: int| 0u8),
{
    buf.zeroize();
}

/// Relies on `String::from_utf8`: it accepts exactly valid UTF-8 and keeps the
/// characters that the bytes encode.
#[verifier::external_body]
pub(crate) fn utf8_to_string(bytes: Vec<u8>) -> (r: Result<String, std::string::FromUtf8Error>)
    ensures
        r is Ok <==> valid_utf8(bytes@),
        r is Ok ==> r->Ok_0@ == decode_utf8(bytes@),
{
    String::from_utf8(bytes)
}

} // verus!
