//! The name cipher: a single path segment becomes the lowercase hexadecimal of
//! its sealed UTF-8 bytes followed by the `.encrypted` marker, and back.

use vstd::prelude::*;
use vstd::string::*;
use vstd::utf8::*;
use crate::error::VaultError;
use crate::hexcode::{bytes_of_hex, decode_hex, encode_hex, hex_of, is_hex_text, lemma_hex_round_trip};
use crate::primitives::{aead_message_limit, aead_open, aead_seal, aead_seal_of, utf8_to_string};
use crate::text::{
    ends_with, find_segment_start, last_segment, lemma_segment_start_bounds, segment_start,
    str_ends_with, substring, with_last_segment,
};
use crate::keys::{derive_key, derived_key, into_array};
use crate::masterfile::MasterfileData;
use vstd::slice::slice_to_vec;

verus! {

broadcast use vstd::utf8::encode_utf8_valid_utf8, vstd::utf8::encode_utf8_decode_utf8;

/// The suffix that marks an encrypted name.
pub const MARKER: &'static str = ".encrypted";

/// The marker's characters.
pub open spec fn marker() -> Seq<char> {
    seq!['.', 'e', 'n', 'c', 'r', 'y', 'p', 't', 'e', 'd']
}

/// Whether a name carries the encrypted marker.
pub open spec fn has_marker(s: Seq<char>) -> bool {
    ends_with(s, marker())
}

/// The token that encrypting `name` under `key` and `nonce` gives.
pub open spec fn name_token(key: Seq<u8>, nonce: Seq<u8>, name: Seq<char>) -> Seq<char> {
    hex_of(aead_seal_of(key, nonce, encode_utf8(name))) + marker()
}

/// A token without its marker.
pub open spec fn token_stem(t: Seq<char>) -> Seq<char> {
    t.subrange(0, t.len() - marker().len())
}

/// Whether `t` has the shape of a token: hexadecimal text and the marker.
pub open spec fn is_token(t: Seq<char>) -> bool {
    has_marker(t) && is_hex_text(token_stem(t))
}

/// The sealed bytes that a token spells out.
pub open spec fn token_bytes(t: Seq<char>) -> Seq<u8> {
    bytes_of_hex(token_stem(t))
}

/// Whether `c` is what sealing some message under `key` and `nonce` produces.
pub open spec fn sealed_under(key: Seq<u8>, nonce: Seq<u8>, c: Seq<u8>) -> bool {
    exists|p: Seq<u8>| p.len() < aead_message_limit() && #[trigger] aead_seal_of(key, nonce, p) == c
}

/// Whether the token `t` decrypts under `key` and `nonce` to `name`.
pub open spec fn opens_to(key: Seq<u8>, nonce: Seq<u8>, t: Seq<char>, name: Seq<char>) -> bool {
    is_token(t) && aead_seal_of(key, nonce, encode_utf8(name)) == token_bytes(t)
}

/// Whether the UTF-8 encoding of `name` is short enough to be sealed.
pub open spec fn sealable(name: Seq<char>) -> bool {
    encode_utf8(name).len() < aead_message_limit()
}

/// The 24-byte nonce used for file names: the file's 19-byte stream nonce
/// followed by five ASCII `0` bytes.
pub open spec fn file_name_nonce(nonce: Seq<u8>) -> Seq<u8> {
    nonce + seq![48u8, 48u8, 48u8, 48u8, 48u8]
}

proof fn lemma_marker_literal()
    ensures
        MARKER@ == marker(),
{
    reveal_strlit(".encrypted");
    assert(MARKER@ =~= marker());
}

/// The stem and marker of a token that was built from them.
proof fn lemma_token_parts(stem: Seq<char>)
    ensures
        has_marker(stem + marker()),
        token_stem(stem + marker()) == stem,
{
    let t = stem + marker();
    assert(t.subrange(t.len() - 10, t.len() as int) =~= marker());
    assert(token_stem(t) =~= stem);
}

/// No token holds a separator.
pub proof fn lemma_token_has_no_separator(key: Seq<u8>, nonce: Seq<u8>, name: Seq<char>)
    ensures
        forall|i: int|
            0 <= i < name_token(key, nonce, name).len() ==> #[trigger] name_token(key, nonce, name)[i]
                != '/',
{
    let h = hex_of(aead_seal_of(key, nonce, encode_utf8(name)));
    let t = name_token(key, nonce, name);
    assert forall|i: int| 0 <= i < t.len() implies #[trigger] t[i] != '/' by {
        if i < h.len() {
            assert(t[i] == h[i]);
        } else {
            assert(t[i] == marker()[i - h.len()]);
        }
    }
}

/// A name's token decrypts back to that name: the token of any name, under any
/// key and nonce, is well formed and opens to the name under the same key and
/// nonce, which is when `decrypt_name` returns it.
pub proof fn lemma_name_round_trip(key: Seq<u8>, nonce: Seq<u8>, name: Seq<char>)
    ensures
        is_token(name_token(key, nonce, name)),
        has_marker(name_token(key, nonce, name)),
        opens_to(key, nonce, name_token(key, nonce, name), name),
{
    let sealed = aead_seal_of(key, nonce, encode_utf8(name));
    lemma_token_parts(hex_of(sealed));
    lemma_hex_round_trip(sealed);
}

/// Whether `name` carries the encrypted marker.
pub fn name_has_marker(name: &str) -> (r: bool)
    ensures
        r == has_marker(name@),
{
    proof {
        lemma_marker_literal();
    }
    str_ends_with(name, MARKER)
}

/// Encrypts one name: the hexadecimal of its sealed bytes, then the marker.
pub fn encrypt_name(name: &str, key: &[u8; 32], nonce: &[u8; 24]) -> (r: Result<String, VaultError>)
    ensures
        r is Ok <==> sealable(name@),
        r is Ok ==> r->Ok_0@ == name_token(key@, nonce@, name@),
        r is Ok ==> aead_seal_of(key@, nonce@, encode_utf8(name@)).len() == encode_utf8(name@).len()
            + 16,
        r is Ok ==> r->Ok_0@.len() == 2 * (encode_utf8(name@).len() + 16) + 10,
        r is Err ==> r == Err::<String, VaultError>(VaultError::Crypto),
{
    match aead_seal(key, nonce, name.as_bytes()) {
        Ok(sealed) => {
            proof {
                lemma_marker_literal();
            }
            let hex = encode_hex(sealed.as_slice());
            Ok(hex.concat(MARKER))
        },
        Err(_) => Err(VaultError::Crypto),
    }
}

/// Decrypts one name token made by `encrypt_name` under the same key and nonce.
/// Every failure is a format error: a missing marker, bad hexadecimal, a token
/// that does not authenticate, or a name that is not UTF-8.
pub fn decrypt_name(token: &str, key: &[u8; 32], nonce: &[u8; 24]) -> (r: Result<String, VaultError>)
    ensures
        !is_token(token@) || !sealed_under(key@, nonce@, token_bytes(token@)) ==> r == Err::<
            String,
            VaultError,
        >(VaultError::Format),
        r is Err ==> r == Err::<String, VaultError>(VaultError::Format),
        r is Ok ==> opens_to(key@, nonce@, token@, r->Ok_0@),
        forall|name: Seq<char>|
            #[trigger] opens_to(key@, nonce@, token@, name) && sealable(name) ==> (r is Ok
                && r->Ok_0@ == name),
{
    proof {
        lemma_marker_literal();
    }
    if !str_ends_with(token, MARKER) {
        return Err(VaultError::Format);
    }
    let n = token.unicode_len();
    let stem = token.substring_char(0, n - 10);
    assert(stem@ == token_stem(token@));
    let bytes = match decode_hex(stem) {
        Ok(b) => b,
        Err(_) => {
            return Err(VaultError::Format);
        },
    };
    let plain = match aead_open(key, nonce, bytes.as_slice()) {
        Ok(p) => p,
        Err(_) => {
            return Err(VaultError::Format);
        },
    };
    match utf8_to_string(plain) {
        Ok(s) => {
            proof {
                vstd::utf8::decode_utf8_encode_utf8(plain@);
            }
            Ok(s)
        },
        Err(_) => Err(VaultError::Format),
    }
}

/// Where the segment that a folder path names ends: before a trailing `/`, if
/// there is one.
pub open spec fn folder_end(p: Seq<char>) -> int {
    if p.len() > 0 && p.last() == '/' {
        p.len() - 1
    } else {
        p.len() as int
    }
}

/// Where the segment that a folder path names starts.
pub open spec fn folder_start(p: Seq<char>) -> int {
    segment_start(p.take(folder_end(p)))
}

/// The segment that a folder path names: its last segment, or the one before
/// a trailing `/`.
pub open spec fn folder_segment(p: Seq<char>) -> Seq<char> {
    p.subrange(folder_start(p), folder_end(p))
}

/// `p` with its characters from `start` to `end` replaced by `s`.
pub open spec fn splice(p: Seq<char>, start: int, end: int, s: Seq<char>) -> Seq<char> {
    p.subrange(0, start) + s + p.subrange(end, p.len() as int)
}

/// `p` with the segment it names as a folder replaced by `s`.
pub open spec fn with_folder_segment(p: Seq<char>, s: Seq<char>) -> Seq<char> {
    splice(p, folder_start(p), folder_end(p), s)
}

/// Where the folder segment of `p` starts and ends.
fn folder_bounds(p: &str) -> (r: (usize, usize))
    ensures
        r.0 == folder_start(p@),
        r.1 == folder_end(p@),
        0 <= r.0 <= r.1 <= p@.len(),
{
    let n = p.unicode_len();
    let end = if n > 0 && p.get_char(n - 1) == '/' {
        n - 1
    } else {
        n
    };
    let head = p.substring_char(0, end);
    assert(head@ =~= p@.take(end as int));
    let start = find_segment_start(head);
    proof {
        lemma_segment_start_bounds(head@);
    }
    (start, end)
}

/// `p` with its characters from `start` to `end` replaced by `s`.
fn splice_str(p: &str, start: usize, end: usize, s: &str) -> (r: String)
    requires
        start <= end <= p@.len(),
    ensures
        r@ == splice(p@, start as int, end as int, s@),
{
    let n = p.unicode_len();
    let head = substring(p, 0, start);
    let tail = p.substring_char(end, n);
    head.concat(s).concat(tail)
}

/// The 24-byte file-name nonce for a file's 19-byte stream nonce.
fn file_name_nonce_bytes(nonce: &[u8; 19]) -> (r: [u8; 24])
    ensures
        r@ == file_name_nonce(nonce@),
{
    let mut v = slice_to_vec(nonce);
    let mut i: usize = 0;
    while i < 5
        invariant
            i <= 5,
            v@ == nonce@ + Seq::new(i as nat, |j: int| 48u8),
        decreases 5 - i,
    {
        v.push(48u8);
        i = i + 1;
        assert(v@ =~= nonce@ + Seq::new(i as nat, |j: int| 48u8));
    }
    assert(v@ =~= file_name_nonce(nonce@));
    into_array(v)
}

/// Encrypts the file name at the end of `source_file_path` under `key`, with
/// the file's stream nonce extended by five ASCII `0` bytes; the rest of the
/// path is kept.
pub fn encrypt_filename(source_file_path: &str, key: &[u8; 32], nonce: &[u8; 19]) -> (r: Result<
    String,
    VaultError,
>)
    ensures
        r is Ok <==> sealable(last_segment(source_file_path@)),
        r is Ok ==> r->Ok_0@ == with_last_segment(
            source_file_path@,
            name_token(key@, file_name_nonce(nonce@), last_segment(source_file_path@)),
        ),
        r is Ok ==> aead_seal_of(
            key@,
            file_name_nonce(nonce@),
            encode_utf8(last_segment(source_file_path@)),
        ).len() == encode_utf8(last_segment(source_file_path@)).len() + 16,
        r is Err ==> r == Err::<String, VaultError>(VaultError::Crypto),
{
    let whole_nonce = file_name_nonce_bytes(nonce);
    let n = source_file_path.unicode_len();
    let start = find_segment_start(source_file_path);
    proof {
        lemma_segment_start_bounds(source_file_path@);
    }
    let name = source_file_path.substring_char(start, n);
    let token = encrypt_name(name, key, &whole_nonce)?;
    let r = splice_str(source_file_path, start, n, token.as_str());
    assert(source_file_path@.subrange(n as int, n as int) =~= Seq::<char>::empty());
    assert(r@ =~= with_last_segment(source_file_path@, token@));
    Ok(r)
}

/// Decrypts the file name at the end of `encrypted_file_path`, sealed as
/// `encrypt_filename` seals it; the rest of the path is kept.
pub fn decrypt_filename(encrypted_file_path: &str, key: &[u8; 32], nonce: &[u8; 19]) -> (r: Result<
    String,
    VaultError,
>)
    ensures
        ({
            let t = last_segment(encrypted_file_path@);
            let nn = file_name_nonce(nonce@);
            &&& !is_token(t) || !sealed_under(key@, nn, token_bytes(t)) ==> r == Err::<
                String,
                VaultError,
            >(VaultError::Format)
            &&& r is Err ==> r == Err::<String, VaultError>(VaultError::Format)
            &&& r is Ok ==> exists|name: Seq<char>|
                opens_to(key@, nn, t, name) && r->Ok_0@ == with_last_segment(
                    encrypted_file_path@,
                    name,
                )
            &&& forall|name: Seq<char>|
                #[trigger] opens_to(key@, nn, t, name) && sealable(name) ==> (r is Ok
                    && r->Ok_0@ == with_last_segment(encrypted_file_path@, name))
        }),
{
    let whole_nonce = file_name_nonce_bytes(nonce);
    let n = encrypted_file_path.unicode_len();
    let start = find_segment_start(encrypted_file_path);
    proof {
        lemma_segment_start_bounds(encrypted_file_path@);
    }
    let token = encrypted_file_path.substring_char(start, n);
    let name = decrypt_name(token, key, &whole_nonce)?;
    let r = splice_str(encrypted_file_path, start, n, name.as_str());
    assert(encrypted_file_path@.subrange(n as int, n as int) =~= Seq::<char>::empty());
    assert(r@ =~= with_last_segment(encrypted_file_path@, name@));
    Ok(r)
}

/// Encrypts the folder name that `source_path` ends with (before a trailing
/// `/`, if any) under `key` and `nonce`; the rest of the path is kept.
pub fn encrypt_foldername_with_key(source_path: &str, key: &[u8; 32], nonce: &[u8; 24]) -> (r: Result<
    String,
    VaultError,
>)
    ensures
        r is Ok <==> sealable(folder_segment(source_path@)),
        r is Ok ==> r->Ok_0@ == with_folder_segment(
            source_path@,
            name_token(key@, nonce@, folder_segment(source_path@)),
        ),
        r is Ok ==> aead_seal_of(key@, nonce@, encode_utf8(folder_segment(source_path@))).len()
            == encode_utf8(folder_segment(source_path@)).len() + 16,
        r is Err ==> r == Err::<String, VaultError>(VaultError::Crypto),
{
    let (start, end) = folder_bounds(source_path);
    let name = source_path.substring_char(start, end);
    let token = encrypt_name(name, key, nonce)?;
    Ok(splice_str(source_path, start, end, token.as_str()))
}

/// Decrypts the folder name that `encrypted_path` ends with (before a trailing
/// `/`, if any), sealed as `encrypt_foldername_with_key` seals it; the rest of
/// the path is kept.
pub fn decrypt_foldername_with_key(encrypted_path: &str, key: &[u8; 32], nonce: &[u8; 24]) -> (r:
    Result<String, VaultError>)
    ensures
        ({
            let t = folder_segment(encrypted_path@);
            &&& !is_token(t) || !sealed_under(key@, nonce@, token_bytes(t)) ==> r == Err::<
                String,
                VaultError,
            >(VaultError::Format)
            &&& r is Err ==> r == Err::<String, VaultError>(VaultError::Format)
            &&& r is Ok ==> exists|name: Seq<char>|
                opens_to(key@, nonce@, t, name) && r->Ok_0@ == with_folder_segment(
                    encrypted_path@,
                    name,
                )
            &&& forall|name: Seq<char>|
                #[trigger] opens_to(key@, nonce@, t, name) && sealable(name) ==> (r is Ok
                    && r->Ok_0@ == with_folder_segment(encrypted_path@, name))
        }),
{
    let (start, end) = folder_bounds(encrypted_path);
    let token = encrypted_path.substring_char(start, end);
    let name = match decrypt_name(token, key, nonce) {
        Ok(s) => s,
        Err(e) => {
            return Err(e);
        },
    };
    let r = splice_str(encrypted_path, start, end, name.as_str());
    assert(opens_to(key@, nonce@, folder_segment(encrypted_path@), name@)
        && r@ == with_folder_segment(encrypted_path@, name@));
    Ok(r)
}

/// The name cipher's key for a vault: derived from the master key with the
/// folder salt.
pub fn folder_key(data: &MasterfileData) -> (r: Result<[u8; 32], VaultError>)
    ensures
        r is Ok,
        r->Ok_0@ == derived_key(data.master_key@, data.folder_salt@),
{
    derive_key(&data.master_key, &data.folder_salt)
}

/// Encrypts the folder name that `source_path` ends with, under the vault's
/// name-cipher key and folder nonce.
pub fn encrypt_foldername(source_path: &str, data: &MasterfileData) -> (r: Result<String, VaultError>)
    ensures
        r is Ok <==> sealable(folder_segment(source_path@)),
        r is Ok ==> r->Ok_0@ == with_folder_segment(
            source_path@,
            name_token(
                derived_key(data.master_key@, data.folder_salt@),
                data.folder_nonce@,
                folder_segment(source_path@),
            ),
        ),
        r is Ok ==> aead_seal_of(
            derived_key(data.master_key@, data.folder_salt@),
            data.folder_nonce@,
            encode_utf8(folder_segment(source_path@)),
        ).len() == encode_utf8(folder_segment(source_path@)).len() + 16,
        r is Err ==> r == Err::<String, VaultError>(VaultError::Crypto),
{
    let key = match folder_key(data) {
        Ok(k) => k,
        Err(_) => vstd::pervasive::unreached(),
    };
    encrypt_foldername_with_key(source_path, &key, &data.folder_nonce)
}

/// Decrypts the folder name that `encrypted_path` ends with, under the vault's
/// name-cipher key and folder nonce.
pub fn decrypt_foldername(encrypted_path: &str, data: &MasterfileData) -> (r: Result<
    String,
    VaultError,
>)
    ensures
        ({
            let t = folder_segment(encrypted_path@);
            let k = derived_key(data.master_key@, data.folder_salt@);
            let nn = data.folder_nonce@;
            &&& !is_token(t) || !sealed_under(k, nn, token_bytes(t)) ==> r == Err::<
                String,
                VaultError,
            >(VaultError::Format)
            &&& r is Err ==> r == Err::<String, VaultError>(VaultError::Format)
            &&& r is Ok ==> exists|name: Seq<char>|
                opens_to(k, nn, t, name) && r->Ok_0@ == with_folder_segment(encrypted_path@, name)
            &&& forall|name: Seq<char>|
                #[trigger] opens_to(k, nn, t, name) && sealable(name) ==> (r is Ok && r->Ok_0@
                    == with_folder_segment(encrypted_path@, name))
        }),
{
    let key = match folder_key(data) {
        Ok(k) => k,
        Err(_) => vstd::pervasive::unreached(),
    };
    decrypt_foldername_with_key(encrypted_path, &key, &data.folder_nonce)
}

} // verus!
