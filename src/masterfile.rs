//! The masterfile: the vault's key material sealed under a key derived from the
//! password. Its 192 bytes are `kdf_salt[32] ‖ wrap_nonce[24] ‖
//! sealed(master_key)[48] ‖ sealed(folder_salt)[48] ‖ sealed(folder_nonce)[40]`,
//! all three fields sealed under the same derived key and nonce.

use vstd::prelude::*;
use vstd::slice::slice_to_vec;
use vstd::utf8::encode_utf8;
use crate::error::VaultError;
use crate::keys::{derive_key, derived_key, into_array};
use crate::primitives::{aead_open, aead_seal, aead_seal_of, fill_random, wipe};
use crate::names::sealed_under;
use crate::vault::{masterfile_path, masterfile_path_of};

verus! {

/// Length in bytes of every masterfile.
pub const MASTERFILE_LEN: usize = 192;

/// The vault's key material, in the clear.
#[derive(Clone)]
pub struct MasterfileData {
    /// Key of the file cipher.
    pub master_key: [u8; 32],
    /// Salt from which, with the master key, the name cipher's key is derived.
    pub folder_salt: [u8; 32],
    /// The name cipher's nonce for folder names.
    pub folder_nonce: [u8; 24],
}

/// A masterfile ready to be written: where it goes and what it holds.
pub struct MasterfileImage {
    pub path: String,
    pub bytes: Vec<u8>,
}

/// Whether the three sealed fields of `data` under `key` and `nonce` have the
/// lengths of the layout (each field plus its 16-byte tag).
pub open spec fn sealed_fields_fit(key: Seq<u8>, nonce: Seq<u8>, data: MasterfileData) -> bool {
    &&& aead_seal_of(key, nonce, data.master_key@).len() == 48
    &&& aead_seal_of(key, nonce, data.folder_salt@).len() == 48
    &&& aead_seal_of(key, nonce, data.folder_nonce@).len() == 40
}

/// The masterfile for `data` with the given salt and nonce, sealed under `key`.
pub open spec fn masterfile_image(
    key: Seq<u8>,
    kdf_salt: Seq<u8>,
    wrap_nonce: Seq<u8>,
    data: MasterfileData,
) -> Seq<u8> {
    kdf_salt + wrap_nonce + aead_seal_of(key, wrap_nonce, data.master_key@) + aead_seal_of(
        key,
        wrap_nonce,
        data.folder_salt@,
    ) + aead_seal_of(key, wrap_nonce, data.folder_nonce@)
}

/// The masterfile for `data` under `password`, with the given salt and nonce.
pub open spec fn masterfile_bytes(
    password: Seq<u8>,
    kdf_salt: Seq<u8>,
    wrap_nonce: Seq<u8>,
    data: MasterfileData,
) -> Seq<u8> {
    masterfile_image(derived_key(password, kdf_salt), kdf_salt, wrap_nonce, data)
}

/// Whether `bytes` is a masterfile that `password` opens to `data`.
pub open spec fn is_masterfile_of(bytes: Seq<u8>, password: Seq<u8>, data: MasterfileData) -> bool {
    exists|s: Seq<u8>, n: Seq<u8>|
        s.len() == 32 && n.len() == 24 && sealed_fields_fit(derived_key(password, s), n, data)
            && bytes == #[trigger] masterfile_bytes(password, s, n, data)
}

/// Whether `bytes` is a masterfile that `password` opens, to some key material.
pub open spec fn is_masterfile(bytes: Seq<u8>, password: Seq<u8>) -> bool {
    exists|d: MasterfileData| #[trigger] is_masterfile_of(bytes, password, d)
}

/// Where each part of a masterfile stands: built for any salt, nonce and key
/// material, a masterfile is 192 bytes long and holds the salt, the nonce and
/// the three sealed fields at the offsets that `read_masterfile` reads them
/// from.
pub proof fn lemma_masterfile_layout(
    password: Seq<u8>,
    kdf_salt: Seq<u8>,
    wrap_nonce: Seq<u8>,
    data: MasterfileData,
)
    requires
        kdf_salt.len() == 32,
        wrap_nonce.len() == 24,
        sealed_fields_fit(derived_key(password, kdf_salt), wrap_nonce, data),
    ensures
        ({
            let b = masterfile_bytes(password, kdf_salt, wrap_nonce, data);
            let k = derived_key(password, kdf_salt);
            &&& b.len() == MASTERFILE_LEN
            &&& b.subrange(0, 32) == kdf_salt
            &&& b.subrange(32, 56) == wrap_nonce
            &&& b.subrange(56, 104) == aead_seal_of(k, wrap_nonce, data.master_key@)
            &&& b.subrange(104, 152) == aead_seal_of(k, wrap_nonce, data.folder_salt@)
            &&& b.subrange(152, 192) == aead_seal_of(k, wrap_nonce, data.folder_nonce@)
        }),
{
    let b = masterfile_bytes(password, kdf_salt, wrap_nonce, data);
    let k = derived_key(password, kdf_salt);
    assert(b.subrange(0, 32) =~= kdf_salt);
    assert(b.subrange(32, 56) =~= wrap_nonce);
    assert(b.subrange(56, 104) =~= aead_seal_of(k, wrap_nonce, data.master_key@));
    assert(b.subrange(104, 152) =~= aead_seal_of(k, wrap_nonce, data.folder_salt@));
    assert(b.subrange(152, 192) =~= aead_seal_of(k, wrap_nonce, data.folder_nonce@));
}

impl MasterfileData {
    /// Overwrites all key material with zeros.
    pub fn wipe(&mut self)
        ensures
            final(self).master_key@ == Seq::new(32, |i: int| 0u8),
            final(self).folder_salt@ == Seq::new(32, |i: int| 0u8),
            final(self).folder_nonce@ == Seq::new(24, |i: int| 0u8),
    {
        wipe(&mut self.master_key);
        wipe(&mut self.folder_salt);
        wipe(&mut self.folder_nonce);
    }
}

/// Seals `data` under the key derived from `password` and `kdf_salt`, with
/// `wrap_nonce`, into the 192-byte masterfile layout.
pub fn seal_masterfile(
    password: &[u8],
    kdf_salt: &[u8; 32],
    wrap_nonce: &[u8; 24],
    data: &MasterfileData,
) -> (r: Result<Vec<u8>, VaultError>)
    ensures
        password@.len() <= 0xFFFF_FFFF ==> r is Ok,
        r is Ok ==> r->Ok_0@ == masterfile_bytes(password@, kdf_salt@, wrap_nonce@, *data),
        r is Ok ==> sealed_fields_fit(derived_key(password@, kdf_salt@), wrap_nonce@, *data),
        r is Ok ==> r->Ok_0@.len() == MASTERFILE_LEN,
        r is Err ==> r == Err::<Vec<u8>, VaultError>(VaultError::KeyDerivation),
{
    let mut key = match derive_key(password, kdf_salt) {
        Ok(k) => k,
        Err(e) => {
            return Err(e);
        },
    };
    let sealed_key = match aead_seal(&key, wrap_nonce, &data.master_key) {
        Ok(c) => c,
        Err(_) => vstd::pervasive::unreached(),
    };
    let sealed_salt = match aead_seal(&key, wrap_nonce, &data.folder_salt) {
        Ok(c) => c,
        Err(_) => vstd::pervasive::unreached(),
    };
    let sealed_nonce = match aead_seal(&key, wrap_nonce, &data.folder_nonce) {
        Ok(c) => c,
        Err(_) => vstd::pervasive::unreached(),
    };
    wipe(&mut key);
    let mut out: Vec<u8> = Vec::new();
    out.extend_from_slice(kdf_salt);
    out.extend_from_slice(wrap_nonce);
    out.extend_from_slice(sealed_key.as_slice());
    out.extend_from_slice(sealed_salt.as_slice());
    out.extend_from_slice(sealed_nonce.as_slice());
    assert(out@ =~= masterfile_bytes(password@, kdf_salt@, wrap_nonce@, *data));
    Ok(out)
}

/// Creates a vault's masterfile for the root directory `path`: fresh salt,
/// nonce and key material from the operating system's random source, sealed
/// under `password`. A password of more UTF-8 bytes than Argon2 accepts is
/// refused before anything is drawn. All key material is wiped before returning.
pub fn create_masterfile(path: &String, password: &String) -> (r: Result<MasterfileImage, VaultError>)
    ensures
        r is Ok ==> r->Ok_0.path@ == masterfile_path_of(path@),
        r is Ok ==> r->Ok_0.bytes@.len() == MASTERFILE_LEN,
        r is Ok ==> is_masterfile(r->Ok_0.bytes@, encode_utf8(password@)),
        r is Ok ==> encode_utf8(password@).len() <= 0xFFFF_FFFF,
        r == Err::<MasterfileImage, VaultError>(VaultError::KeyDerivation) <==> encode_utf8(
            password@,
        ).len() > 0xFFFF_FFFF,
        r is Err ==> r == Err::<MasterfileImage, VaultError>(VaultError::Randomness) || r
            == Err::<MasterfileImage, VaultError>(VaultError::KeyDerivation),
{
    let pw = password.as_str().as_bytes();
    if pw.len() as u64 > 0xFFFF_FFFFu64 {
        return Err(VaultError::KeyDerivation);
    }
    let mut kdf_salt = [0u8; 32];
    let mut wrap_nonce = [0u8; 24];
    let mut data = MasterfileData { master_key: [0u8; 32], folder_salt: [0u8; 32], folder_nonce: [0u8; 24] };
    if fill_random(&mut kdf_salt).is_err() || fill_random(&mut wrap_nonce).is_err() || fill_random(
        &mut data.master_key,
    ).is_err() || fill_random(&mut data.folder_salt).is_err() || fill_random(
        &mut data.folder_nonce,
    ).is_err() {
        data.wipe();
        return Err(VaultError::Randomness);
    }
    let sealed = seal_masterfile(pw, &kdf_salt, &wrap_nonce, &data);
    let ghost d = data;
    proof {
        if sealed is Ok {
            assert(sealed->Ok_0@ == masterfile_bytes(pw@, kdf_salt@, wrap_nonce@, d));
            assert(is_masterfile_of(sealed->Ok_0@, pw@, d));
        }
    }
    wipe(&mut kdf_salt);
    wipe(&mut wrap_nonce);
    data.wipe();
    match sealed {
        Ok(bytes) => {
            assert(is_masterfile_of(bytes@, encode_utf8(password@), d));
            let img = MasterfileImage { path: masterfile_path(path.as_str()), bytes };
            assert(img.bytes@ == bytes@);
            assert(is_masterfile(img.bytes@, encode_utf8(password@)));
            Ok(img)
        },
        Err(e) => Err(e),
    }
}

/// Reads the key material out of a masterfile with `password`.
pub fn read_masterfile(bytes: &[u8], password: &String) -> (r: Result<MasterfileData, VaultError>)
    ensures
        bytes@.len() != MASTERFILE_LEN <==> r == Err::<MasterfileData, VaultError>(
            VaultError::Format,
        ),
        r is Err ==> r == Err::<MasterfileData, VaultError>(VaultError::Format) || r == Err::<
            MasterfileData,
            VaultError,
        >(VaultError::Authentication) || r == Err::<MasterfileData, VaultError>(
            VaultError::KeyDerivation,
        ),
        r == Err::<MasterfileData, VaultError>(VaultError::KeyDerivation) ==> encode_utf8(password@).len()
            > 0xFFFF_FFFF,
        r is Ok ==> bytes@ == masterfile_bytes(
            encode_utf8(password@),
            bytes@.subrange(0, 32),
            bytes@.subrange(32, 56),
            r->Ok_0,
        ),
        bytes@.len() == MASTERFILE_LEN ==> ({
            let k = derived_key(encode_utf8(password@), bytes@.subrange(0, 32));
            let n = bytes@.subrange(32, 56);
            let all_sealed = sealed_under(k, n, bytes@.subrange(56, 104)) && sealed_under(
                k,
                n,
                bytes@.subrange(104, 152),
            ) && sealed_under(k, n, bytes@.subrange(152, 192));
            encode_utf8(password@).len() <= 0xFFFF_FFFF && !all_sealed ==> r == Err::<
                MasterfileData,
                VaultError,
            >(VaultError::Authentication)
        }),
        forall|d: MasterfileData|
            encode_utf8(password@).len() <= 0xFFFF_FFFF && #[trigger] is_masterfile_of(
                bytes@,
                encode_utf8(password@),
                d,
            ) ==> r == Ok::<MasterfileData, VaultError>(d),
{
    if bytes.len() != MASTERFILE_LEN {
        proof {
            assert forall|d: MasterfileData| !is_masterfile_of(bytes@, encode_utf8(password@), d) by {
                if is_masterfile_of(bytes@, encode_utf8(password@), d) {
                    let (s, nn) = choose|s: Seq<u8>, nn: Seq<u8>|
                        s.len() == 32 && nn.len() == 24 && sealed_fields_fit(
                            derived_key(encode_utf8(password@), s),
                            nn,
                            d,
                        ) && bytes@ == #[trigger] masterfile_bytes(encode_utf8(password@), s, nn, d);
                    lemma_masterfile_layout(encode_utf8(password@), s, nn, d);
                }
            }
        }
        return Err(VaultError::Format);
    }
    let pw = password.as_str().as_bytes();
    let mut key = match derive_key(pw, &bytes[0..32]) {
        Ok(k) => k,
        Err(e) => {
            return Err(e);
        },
    };
    let mut nonce: [u8; 24] = into_array(slice_to_vec(&bytes[32..56]));
    let ghost k = key@;
    let ghost n = nonce@;
    let master_key = aead_open(&key, &nonce, &bytes[56..104]);
    let folder_salt = aead_open(&key, &nonce, &bytes[104..152]);
    let folder_nonce = aead_open(&key, &nonce, &bytes[152..192]);
    wipe(&mut key);
    wipe(&mut nonce);
    proof {
        assert forall|d: MasterfileData|
            encode_utf8(password@).len() <= 0xFFFF_FFFF && #[trigger] is_masterfile_of(
                bytes@,
                pw@,
                d,
            ) implies master_key is Ok && master_key->Ok_0@ == d.master_key@ && folder_salt is Ok
            && folder_salt->Ok_0@ == d.folder_salt@ && folder_nonce is Ok && folder_nonce->Ok_0@
            == d.folder_nonce@ by {
            let (s, nn) = choose|s: Seq<u8>, nn: Seq<u8>|
                s.len() == 32 && nn.len() == 24 && sealed_fields_fit(derived_key(pw@, s), nn, d)
                    && bytes@ == #[trigger] masterfile_bytes(pw@, s, nn, d);
            lemma_masterfile_layout(pw@, s, nn, d);
            assert(aead_seal_of(k, n, d.master_key@) == bytes@.subrange(56, 104));
            assert(aead_seal_of(k, n, d.folder_salt@) == bytes@.subrange(104, 152));
            assert(aead_seal_of(k, n, d.folder_nonce@) == bytes@.subrange(152, 192));
        }
    }
    match (master_key, folder_salt, folder_nonce) {
        (Ok(mk), Ok(fs), Ok(fnn)) => {
            let data = MasterfileData {
                master_key: into_array(mk),
                folder_salt: into_array(fs),
                folder_nonce: into_array(fnn),
            };
            assert(bytes@ =~= masterfile_bytes(pw@, bytes@.subrange(0, 32), n, data));
            assert forall|d: MasterfileData|
                encode_utf8(password@).len() <= 0xFFFF_FFFF && #[trigger] is_masterfile_of(
                    bytes@,
                    pw@,
                    d,
                ) implies data == d by {
                assert(data.master_key =~= d.master_key);
                assert(data.folder_salt =~= d.folder_salt);
                assert(data.folder_nonce =~= d.folder_nonce);
            }
            Ok(data)
        },
        _ => Err(VaultError::Authentication),
    }
}

} // verus!
