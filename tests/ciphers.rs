use rusty_vault::error::VaultError;
use rusty_vault::files::{decrypt_file, encrypt_file, encrypt_file_with_nonce};
use rusty_vault::names::{
    decrypt_filename, decrypt_foldername_with_key, decrypt_name, encrypt_filename,
    encrypt_foldername_with_key, encrypt_name, name_has_marker,
};
use rusty_vault::stream::{open_contents, seal_contents, stream_length_valid};

const KEY: [u8; 32] = [7u8; 32];
const NONCE24: [u8; 24] = [3u8; 24];
const NONCE19: [u8; 19] = [9u8; 19];

fn is_lower_hex(s: &str) -> bool {
    s.chars().all(|c| c.is_ascii_digit() || ('a'..='f').contains(&c))
}

#[test]
fn name_round_trip_plain_ascii() {
    let token = encrypt_name("a.txt", &KEY, &NONCE24).unwrap();
    assert!(token.ends_with(".encrypted"));
    let stem = token.strip_suffix(".encrypted").unwrap();
    assert!(is_lower_hex(stem));
    // 5 bytes of name plus a 16-byte tag, two digits per byte
    assert_eq!(stem.len(), 2 * (5 + 16));
    assert_eq!(token.len(), 2 * (5 + 16) + 10);
    assert_ne!(stem, "a.txt");
    assert_eq!(decrypt_name(&token, &KEY, &NONCE24).unwrap(), "a.txt");
}

#[test]
fn name_round_trip_unicode_and_empty() {
    for name in ["", "über straße", "日本語.md", "x.encrypted.not"] {
        let token = encrypt_name(name, &KEY, &NONCE24).unwrap();
        assert_eq!(decrypt_name(&token, &KEY, &NONCE24).unwrap(), name);
    }
}

#[test]
fn name_encryption_is_deterministic() {
    let a = encrypt_name("report", &KEY, &NONCE24).unwrap();
    let b = encrypt_name("report", &KEY, &NONCE24).unwrap();
    assert_eq!(a, b);
    let c = encrypt_name("report", &[8u8; 32], &NONCE24).unwrap();
    assert_ne!(a, c);
}

#[test]
fn name_errors() {
    assert_eq!(decrypt_name("abcd", &KEY, &NONCE24), Err(VaultError::Format));
    assert_eq!(decrypt_name("zz.encrypted", &KEY, &NONCE24), Err(VaultError::Format));
    assert_eq!(decrypt_name("abc.encrypted", &KEY, &NONCE24), Err(VaultError::Format));
    let token = encrypt_name("secret", &KEY, &NONCE24).unwrap();
    // a token that does not authenticate is malformed as a name
    assert_eq!(decrypt_name(&token, &[1u8; 32], &NONCE24), Err(VaultError::Format));
    assert_eq!(decrypt_name(&token, &KEY, &[4u8; 24]), Err(VaultError::Format));
    let mut tampered: Vec<char> = token.chars().collect();
    tampered[0] = if tampered[0] == '0' { '1' } else { '0' };
    let tampered: String = tampered.into_iter().collect();
    assert_eq!(decrypt_name(&tampered, &KEY, &NONCE24), Err(VaultError::Format));
    // upper-case digits decode as well
    assert_eq!(decrypt_name(&token.to_uppercase().replace(".ENCRYPTED", ".encrypted"), &KEY, &NONCE24).unwrap(), "secret");
}

#[test]
fn filename_keeps_the_directories() {
    let enc = encrypt_filename("/tmp/v/docs/a.txt", &KEY, &NONCE19).unwrap();
    assert!(enc.starts_with("/tmp/v/docs/"));
    let seg = enc.rsplit('/').next().unwrap();
    assert!(name_has_marker(seg));
    assert_eq!(decrypt_filename(&enc, &KEY, &NONCE19).unwrap(), "/tmp/v/docs/a.txt");
    let bare = encrypt_filename("a.txt", &KEY, &NONCE19).unwrap();
    assert!(!bare.contains('/'));
    assert_eq!(decrypt_filename(&bare, &KEY, &NONCE19).unwrap(), "a.txt");
}

#[test]
fn filename_nonce_is_padded_with_ascii_zeros() {
    let mut padded = [48u8; 24];
    padded[..19].copy_from_slice(&NONCE19);
    let via_file = encrypt_filename("dir/n", &KEY, &NONCE19).unwrap();
    let via_name = encrypt_name("n", &KEY, &padded).unwrap();
    assert_eq!(via_file, format!("dir/{}", via_name));
}

#[test]
fn foldername_with_trailing_separator() {
    let enc = encrypt_foldername_with_key("/tmp/v/photos/", &KEY, &NONCE24).unwrap();
    assert!(enc.starts_with("/tmp/v/"));
    assert!(enc.ends_with(".encrypted/"));
    let token = encrypt_name("photos", &KEY, &NONCE24).unwrap();
    assert_eq!(enc, format!("/tmp/v/{}/", token));
    assert_eq!(decrypt_foldername_with_key(&enc, &KEY, &NONCE24).unwrap(), "/tmp/v/photos/");
    let plain = encrypt_foldername_with_key("/tmp/v/photos", &KEY, &NONCE24).unwrap();
    assert_eq!(plain, format!("/tmp/v/{}", token));
    assert_eq!(decrypt_foldername_with_key(&plain, &KEY, &NONCE24).unwrap(), "/tmp/v/photos");
    assert_eq!(decrypt_foldername_with_key("/tmp/v/photos", &KEY, &NONCE24), Err(VaultError::Format));
}

fn contents(n: usize) -> Vec<u8> {
    (0..n).map(|i| (i * 31 % 251) as u8).collect()
}

#[test]
fn stream_round_trip_at_chunk_boundaries() {
    for n in [0usize, 1, 499, 500, 501, 999, 1000, 1001, 1234] {
        let plain = contents(n);
        let sealed = seal_contents(&plain, &KEY, &NONCE19).unwrap();
        let full = n / 500;
        let last = n % 500;
        assert_eq!(sealed.len(), 19 + full * 516 + last + 16, "length for {}", n);
        assert_eq!(&sealed[..19], &NONCE19);
        if n > 0 {
            let k = n.min(500);
            assert_ne!(&sealed[19..19 + k], &plain[..k]);
        }
        assert_eq!(open_contents(&sealed, &KEY).unwrap(), plain, "round trip for {}", n);
    }
}

#[test]
fn empty_file_still_has_a_final_frame() {
    let sealed = seal_contents(&[], &KEY, &NONCE19).unwrap();
    assert_eq!(sealed.len(), 19 + 16);
    assert_eq!(open_contents(&sealed, &KEY).unwrap(), Vec::<u8>::new());
}

#[test]
fn stream_errors() {
    let plain = contents(1200);
    let sealed = seal_contents(&plain, &KEY, &NONCE19).unwrap();
    assert_eq!(open_contents(&sealed, &[2u8; 32]), Err(VaultError::Authentication));
    let mut tampered = sealed.clone();
    tampered[600] ^= 1;
    assert_eq!(open_contents(&tampered, &KEY), Err(VaultError::Authentication));
    // dropping the final frame leaves whole chunks only: the end is missing
    let truncated = &sealed[..19 + 2 * 516];
    assert_eq!(open_contents(truncated, &KEY), Err(VaultError::Format));
    // cutting into the final frame breaks its tag
    let short = &sealed[..sealed.len() - 1];
    assert_eq!(open_contents(short, &KEY), Err(VaultError::Authentication));
    assert_eq!(open_contents(&sealed[..10], &KEY), Err(VaultError::Format));
    assert!(!stream_length_valid(19));
    assert!(stream_length_valid(19 + 16));
    // chunks out of order do not authenticate
    let mut swapped = sealed.clone();
    swapped[19..19 + 516].copy_from_slice(&sealed[19 + 516..19 + 1032]);
    swapped[19 + 516..19 + 1032].copy_from_slice(&sealed[19..19 + 516]);
    assert_eq!(open_contents(&swapped, &KEY), Err(VaultError::Authentication));
}

#[test]
fn file_round_trip() {
    let plain = b"hello".to_vec();
    let enc = encrypt_file("/tmp/v/a.txt", &plain, &KEY).unwrap();
    assert!(enc.path.starts_with("/tmp/v/"));
    assert!(enc.path.ends_with(".encrypted"));
    assert_eq!(enc.bytes.len(), 19 + 5 + 16);
    let dec = decrypt_file(&enc.path, &enc.bytes, &KEY).unwrap();
    assert_eq!(dec.path, "/tmp/v/a.txt");
    assert_eq!(dec.bytes, plain);
}

#[test]
fn file_nonces_differ_between_encryptions() {
    let a = encrypt_file("x/a", b"same", &KEY).unwrap();
    let b = encrypt_file("x/a", b"same", &KEY).unwrap();
    assert_ne!(a.bytes[..19], b.bytes[..19]);
    assert_ne!(a.path, b.path);
}

#[test]
fn file_with_given_nonce_is_exact() {
    let enc = encrypt_file_with_nonce("d/f.bin", &contents(700), &KEY, &NONCE19).unwrap();
    assert_eq!(enc.bytes, seal_contents(&contents(700), &KEY, &NONCE19).unwrap());
    assert_eq!(enc.path, encrypt_filename("d/f.bin", &KEY, &NONCE19).unwrap());
}

#[test]
fn file_with_foreign_name_token() {
    // contents sealed under the key, name token from elsewhere: the contents
    // authenticate, the name does not, which is a format error
    let enc = encrypt_file("d/f", b"data", &KEY).unwrap();
    let other = encrypt_file("d/g", b"data", &[5u8; 32]).unwrap();
    let other_name = other.path.rsplit('/').next().unwrap();
    let r = decrypt_file(&format!("d/{}", other_name), &enc.bytes, &KEY);
    assert_eq!(r.err(), Some(VaultError::Format));
    // and a tampered body under a good name reports tampering
    let mut bad = enc.bytes.clone();
    let last = bad.len() - 1;
    bad[last] ^= 1;
    assert_eq!(decrypt_file(&enc.path, &bad, &KEY).err(), Some(VaultError::Authentication));
}

#[test]
fn file_errors() {
    let enc = encrypt_file("d/f", b"data", &KEY).unwrap();
    assert_eq!(decrypt_file(&enc.path, &enc.bytes[..5], &KEY).err(), Some(VaultError::Format));
    assert_eq!(decrypt_file("d/f", &enc.bytes, &KEY).err(), Some(VaultError::Format));
    assert_eq!(decrypt_file(&enc.path, &enc.bytes, &[0u8; 32]).err(), Some(VaultError::Authentication));
}
