//! Whole files: the encrypted form of a file is its sealed contents under an
//! encrypted name, and back. Reading, writing and removing the files themselves
//! is left to the caller.

use vstd::prelude::*;
use crate::error::VaultError;
use crate::keys::into_array;
use crate::names::{
    decrypt_filename, encrypt_filename, file_name_nonce, lemma_name_round_trip,
    lemma_token_has_no_separator, name_token, opens_to, sealable,
    sealed_under, is_token, token_bytes,
};
use crate::primitives::{fill_random, wipe};
use crate::stream::{
    body_fits, is_sealed_stream, is_stream_of, lemma_stream_length, lemma_stream_round_trip, open_contents, seal_contents, sealed_stream, stream_length_ok,
    stream_length_valid, stream_sized, STREAM_NONCE_LEN,
};
use crate::text::{last_segment, lemma_replace_last_segment, lemma_segment_start_bounds, with_last_segment};
use vstd::slice::slice_to_vec;

verus! {

/// A file as it is to be written: its path and its contents.
pub struct FileImage {
    pub path: String,
    pub bytes: Vec<u8>,
}

/// Whether `f` is the encryption of the file at `path` holding `contents`,
/// under `key` with the stream nonce `nonce`.
pub open spec fn is_encryption_of(
    f: FileImage,
    path: Seq<char>,
    contents: Seq<u8>,
    key: Seq<u8>,
    nonce: Seq<u8>,
) -> bool {
    &&& f.path@ == with_last_segment(path, name_token(key, file_name_nonce(nonce), last_segment(path)))
    &&& f.bytes@ == sealed_stream(key, nonce, contents)
    &&& body_fits(key, nonce, contents, 0)
    &&& stream_sized(contents)
    &&& sealable(last_segment(path))
    &&& nonce.len() == STREAM_NONCE_LEN
}

/// A file comes back from its encryption: the encryption of the file at `path`
/// holding `contents`, under any key and stream nonce, is one that
/// `decrypt_file` accepts, restoring the same path and the same contents.
pub proof fn lemma_file_round_trip(
    f: FileImage,
    path: Seq<char>,
    contents: Seq<u8>,
    key: Seq<u8>,
    nonce: Seq<u8>,
)
    requires
        is_encryption_of(f, path, contents, key, nonce),
    ensures
        f.bytes@.take(STREAM_NONCE_LEN as int) == nonce,
        is_stream_of(key, f.bytes@, contents),
        opens_to(key, file_name_nonce(nonce), last_segment(f.path@), last_segment(path)),
        with_last_segment(f.path@, last_segment(path)) == path,
{
    let name = last_segment(path);
    let token = name_token(key, file_name_nonce(nonce), name);
    lemma_stream_round_trip(key, nonce, contents);
    lemma_name_round_trip(key, file_name_nonce(nonce), name);
    lemma_token_has_no_separator(key, file_name_nonce(nonce), name);
    lemma_replace_last_segment(path, token, name);
    lemma_segment_start_bounds(path);
    assert(with_last_segment(path, name) =~= path);
    assert(f.bytes@.take(STREAM_NONCE_LEN as int) =~= nonce);
}

/// Encrypts the file at `source_file_path` holding `contents` under `key`, with
/// the given stream nonce.
pub fn encrypt_file_with_nonce(
    source_file_path: &str,
    contents: &[u8],
    key: &[u8; 32],
    nonce: &[u8; 19],
) -> (r: Result<FileImage, VaultError>)
    ensures
        r is Ok <==> sealable(last_segment(source_file_path@)) && stream_sized(contents@),
        r is Ok ==> is_encryption_of(r->Ok_0, source_file_path@, contents@, key@, nonce@),
        r is Err ==> r == Err::<FileImage, VaultError>(VaultError::Crypto),
{
    let path = match encrypt_filename(source_file_path, key, nonce) {
        Ok(p) => p,
        Err(e) => {
            return Err(e);
        },
    };
    let bytes = match seal_contents(contents, key, nonce) {
        Ok(b) => b,
        Err(e) => {
            return Err(e);
        },
    };
    Ok(FileImage { path, bytes })
}

/// Encrypts the file at `source_file_path` holding `contents` under `key`, with
/// a fresh stream nonce from the operating system's random source.
pub fn encrypt_file(source_file_path: &str, contents: &[u8], key: &[u8; 32]) -> (r: Result<
    FileImage,
    VaultError,
>)
    ensures
        r is Ok ==> exists|nonce: Seq<u8>|
            nonce.len() == STREAM_NONCE_LEN && is_encryption_of(
                r->Ok_0,
                source_file_path@,
                contents@,
                key@,
                nonce,
            ),
        r is Err ==> r == Err::<FileImage, VaultError>(VaultError::Randomness) || (r == Err::<
            FileImage,
            VaultError,
        >(VaultError::Crypto) && !(sealable(last_segment(source_file_path@)) && stream_sized(
            contents@,
        ))),
{
    let mut nonce = [0u8; 19];
    if fill_random(&mut nonce).is_err() {
        return Err(VaultError::Randomness);
    }
    let r = encrypt_file_with_nonce(source_file_path, contents, key, &nonce);
    wipe(&mut nonce);
    r
}

/// Decrypts the encrypted file at `encrypted_file_path` holding `contents`
/// under `key`: the stream nonce at its head serves both its name and its
/// contents. The contents are authenticated first, so a wrong key or a tampered
/// file reports `Authentication`; a name that then fails to decrypt is a format
/// error.
pub fn decrypt_file(encrypted_file_path: &str, contents: &[u8], key: &[u8; 32]) -> (r: Result<
    FileImage,
    VaultError,
>)
    ensures
        ({
            let t = last_segment(encrypted_file_path@);
            let nn = file_name_nonce(contents@.take(STREAM_NONCE_LEN as int));
            &&& !stream_length_ok(contents@.len() as int) ==> r == Err::<FileImage, VaultError>(
                VaultError::Format,
            )
            &&& r == Err::<FileImage, VaultError>(VaultError::Authentication) <==> (
            stream_length_ok(contents@.len() as int) && !is_sealed_stream(key@, contents@))
            &&& is_sealed_stream(key@, contents@) && (!is_token(t) || !sealed_under(
                key@,
                nn,
                token_bytes(t),
            )) ==> r == Err::<FileImage, VaultError>(VaultError::Format)
            &&& r is Err ==> r == Err::<FileImage, VaultError>(VaultError::Format) || r == Err::<
                FileImage,
                VaultError,
            >(VaultError::Authentication)
            &&& r is Ok ==> is_stream_of(key@, contents@, r->Ok_0.bytes@) && exists|name: Seq<char>|
                opens_to(key@, nn, t, name) && r->Ok_0.path@ == with_last_segment(
                    encrypted_file_path@,
                    name,
                )
            &&& forall|name: Seq<char>, p: Seq<u8>|
                #[trigger] opens_to(key@, nn, t, name) && sealable(name) && #[trigger] is_stream_of(
                    key@,
                    contents@,
                    p,
                ) ==> (r is Ok && r->Ok_0.path@ == with_last_segment(encrypted_file_path@, name)
                    && r->Ok_0.bytes@ == p)
        }),
{
    if !stream_length_valid(contents.len()) {
        proof {
            assert forall|p: Seq<u8>| !is_stream_of(key@, contents@, p) by {
                if is_stream_of(key@, contents@, p) {
                    lemma_stream_length(key@, contents@, p);
                }
            }
        }
        return Err(VaultError::Format);
    }
    let bytes = match open_contents(contents, key) {
        Ok(b) => b,
        Err(e) => {
            return Err(e);
        },
    };
    let mut nonce: [u8; 19] = into_array(slice_to_vec(&contents[0..STREAM_NONCE_LEN]));
    let named = decrypt_filename(encrypted_file_path, key, &nonce);
    wipe(&mut nonce);
    let path = match named {
        Ok(p) => p,
        Err(e) => {
            return Err(e);
        },
    };
    Ok(FileImage { path, bytes })
}

} // verus!
