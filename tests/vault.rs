use rusty_vault::error::VaultError;
use rusty_vault::files::{decrypt_file, encrypt_file};
use rusty_vault::keys::{argon2_config, derive_key, into_array};
use rusty_vault::masterfile::{create_masterfile, read_masterfile, seal_masterfile, MasterfileData};
use rusty_vault::names::{decrypt_foldername, encrypt_foldername, folder_key, name_has_marker};
use rusty_vault::primitives::KdfVariant;
use rusty_vault::text::{clean_input, split_str};
use rusty_vault::vault::{
    check_vault_status, config_line, masterfile_path, read_config_file, recheck_vault_status,
    render_config, vault_root, DirEntry, Vault, VaultStatus,
};
use rusty_vault::walker::{file_action, folder_action, EntryAction};

fn data() -> MasterfileData {
    MasterfileData { master_key: [11u8; 32], folder_salt: [12u8; 32], folder_nonce: [13u8; 24] }
}

#[test]
fn kdf_parameters_are_fixed() {
    let p = argon2_config();
    assert_eq!(p.variant, KdfVariant::Argon2id);
    assert_eq!((p.hash_length, p.lanes, p.mem_cost, p.time_cost), (32, 8, 16384, 8));
}

#[test]
fn derived_keys_depend_on_password_and_salt() {
    let a = derive_key(b"pw", &[1u8; 32]).unwrap();
    let b = derive_key(b"pw", &[1u8; 32]).unwrap();
    let c = derive_key(b"pw", &[2u8; 32]).unwrap();
    assert_eq!(a, b);
    assert_ne!(a, c);
    assert_ne!(&a[..2], b"pw");
    assert_eq!(derive_key(b"pw", &[1u8; 4]), Err(VaultError::KeyDerivation));
}

#[test]
fn masterfile_round_trip_with_given_material() {
    let pw = String::from("correct horse");
    let bytes = seal_masterfile(pw.as_bytes(), &[5u8; 32], &[6u8; 24], &data()).unwrap();
    assert_eq!(bytes.len(), 192);
    assert_eq!(&bytes[..32], &[5u8; 32]);
    assert_eq!(&bytes[32..56], &[6u8; 24]);
    assert_ne!(&bytes[56..88], &[11u8; 32]);
    let back = read_masterfile(&bytes, &pw).unwrap();
    assert_eq!(back.master_key, [11u8; 32]);
    assert_eq!(back.folder_salt, [12u8; 32]);
    assert_eq!(back.folder_nonce, [13u8; 24]);
    assert_eq!(read_masterfile(&bytes, &String::from("wrong")).err(), Some(VaultError::Authentication));
    let mut tampered = bytes.clone();
    tampered[100] ^= 0x80;
    assert_eq!(read_masterfile(&tampered, &pw).err(), Some(VaultError::Authentication));
    assert_eq!(read_masterfile(&bytes[..191], &pw).err(), Some(VaultError::Format));
}

#[test]
fn vault_scenario_lock_and_unlock() {
    let pw = String::from("correct horse");
    let image = create_masterfile(&String::from("/tmp/v"), &pw).unwrap();
    assert_eq!(image.path, "/tmp/v/masterfile.e");
    assert_eq!(image.bytes.len(), 192);
    let material = read_masterfile(&image.bytes, &pw).unwrap();

    let locked = encrypt_file("/tmp/v/a.txt", b"hello", &material.master_key).unwrap();
    assert_ne!(locked.path, "/tmp/v/a.txt");
    let name = locked.path.strip_prefix("/tmp/v/").unwrap();
    assert!(name_has_marker(name));
    assert!(name.strip_suffix(".encrypted").unwrap().chars().all(|c| c.is_ascii_hexdigit()));

    let again = read_masterfile(&image.bytes, &pw).unwrap();
    let unlocked = decrypt_file(&locked.path, &locked.bytes, &again.master_key).unwrap();
    assert_eq!(unlocked.path, "/tmp/v/a.txt");
    assert_eq!(unlocked.bytes, b"hello".to_vec());
    assert!(!name_has_marker(&unlocked.path));
}

#[test]
fn vault_scenario_wrong_password() {
    let image = create_masterfile(&String::from("/tmp/v/"), &String::from("correct horse")).unwrap();
    assert_eq!(image.path, "/tmp/v/masterfile.e");
    let before = image.bytes.clone();
    assert_eq!(read_masterfile(&image.bytes, &String::from("wrong")).err(), Some(VaultError::Authentication));
    assert_eq!(image.bytes, before);
}

#[test]
fn folder_names_under_vault_material() {
    let d = data();
    let key = folder_key(&d).unwrap();
    assert_eq!(key, derive_key(&d.master_key, &d.folder_salt).unwrap());
    let enc = encrypt_foldername("/tmp/v/music", &d).unwrap();
    assert!(enc.starts_with("/tmp/v/") && enc.ends_with(".encrypted"));
    assert_eq!(decrypt_foldername(&enc, &d).unwrap(), "/tmp/v/music");
    assert_eq!(decrypt_foldername("/tmp/v/music", &d), Err(VaultError::Format));
}

fn entry(name: &str, is_file: bool) -> DirEntry {
    DirEntry { name: String::from(name), is_file }
}

#[test]
fn status_classification() {
    let locked = vec![entry("ab12.encrypted", true), entry("masterfile.e", true)];
    assert_eq!(check_vault_status(&locked), VaultStatus::Locked);
    let unlocked = vec![entry("notes.txt", true), entry(".DS_Store", true)];
    assert_eq!(check_vault_status(&unlocked), VaultStatus::Unlocked);
    let mixed = vec![entry("ab12.encrypted", true), entry("notes.txt", true)];
    assert_eq!(check_vault_status(&mixed), VaultStatus::Mixed);
    let none = vec![entry("masterfile.e", true), entry("sub", false), entry("x.encrypted", false)];
    assert_eq!(check_vault_status(&none), VaultStatus::Unknown);
    assert_eq!(check_vault_status(&vec![]), VaultStatus::Unknown);
}

#[test]
fn walker_decisions() {
    assert_eq!(file_action("a.txt", true), EntryAction::Encrypt);
    assert_eq!(file_action("a.txt", false), EntryAction::Leave);
    assert_eq!(file_action("ff.encrypted", true), EntryAction::Leave);
    assert_eq!(file_action("ff.encrypted", false), EntryAction::Decrypt);
    for sentinel in ["masterfile.e", ".DS_Store", "Icon"] {
        assert_eq!(file_action(sentinel, true), EntryAction::Leave);
        assert_eq!(file_action(sentinel, false), EntryAction::Leave);
    }
    assert_eq!(folder_action("Icon", true), EntryAction::Encrypt);
    assert_eq!(folder_action("ab.encrypted", false), EntryAction::Decrypt);
    assert_eq!(folder_action("ab.encrypted", true), EntryAction::Leave);
}

#[test]
fn second_pass_in_same_direction_changes_nothing() {
    let key = [21u8; 32];
    let name = "holiday.jpg";
    let locked = encrypt_file(&format!("root/{}", name), b"x", &key).unwrap();
    let locked_name = locked.path.strip_prefix("root/").unwrap();
    assert_eq!(file_action(locked_name, true), EntryAction::Leave);
    let restored = decrypt_file(&locked.path, &locked.bytes, &key).unwrap();
    let restored_name = restored.path.strip_prefix("root/").unwrap();
    assert_eq!(restored_name, name);
    assert_eq!(file_action(restored_name, false), EntryAction::Leave);
}

#[test]
fn paths_of_masterfiles() {
    assert_eq!(masterfile_path("/tmp/v"), "/tmp/v/masterfile.e");
    assert_eq!(masterfile_path("/tmp/v/"), "/tmp/v/masterfile.e");
    assert_eq!(vault_root("/tmp/v/masterfile.e"), Some(String::from("/tmp/v")));
    assert_eq!(vault_root("/tmp/v/other.e"), None);
    assert_eq!(vault_root("masterfile.e"), None);
}

#[test]
fn registry_round_trip() {
    let text = "home,/home/u/vault/masterfile.e\nwork,/w/masterfile.e\r\nbroken\nbad,/w/notes\n\n";
    let vaults = read_config_file(text);
    assert_eq!(vaults.len(), 2);
    assert_eq!(vaults[0].name, "home");
    assert_eq!(vaults[0].master_file_path, "/home/u/vault/masterfile.e");
    assert_eq!(vaults[0].path, "/home/u/vault");
    assert_eq!(vaults[0].status, VaultStatus::Unknown);
    assert_eq!(vaults[1].name, "work");
    assert_eq!(vaults[1].path, "/w");
    let rendered = render_config(&vaults);
    assert_eq!(rendered, "home,/home/u/vault/masterfile.e\nwork,/w/masterfile.e\n");
    assert_eq!(read_config_file(&rendered).len(), 2);
    assert_eq!(config_line("n", "/p/masterfile.e"), "n,/p/masterfile.e\n");
    assert_eq!(read_config_file("").len(), 0);
}

#[test]
fn wipe_clears_material() {
    let mut d = data();
    d.wipe();
    assert_eq!(d.master_key, [0u8; 32]);
    assert_eq!(d.folder_salt, [0u8; 32]);
    assert_eq!(d.folder_nonce, [0u8; 24]);
}

#[test]
fn mixed_status_asks_for_resolution() {
    let mut v = Vault::new(String::from("m"), String::from("/m/masterfile.e"));
    assert!(v.check_status(VaultStatus::Mixed));
    assert_eq!(v.status, VaultStatus::Mixed);
    assert!(!v.check_status(VaultStatus::Locked));
    assert_eq!(v.status, VaultStatus::Locked);
    assert_eq!(v.path, "/m");
}

#[test]
fn statuses_are_recorded_in_order() {
    let mut vaults = vec![
        Vault::new(String::from("a"), String::from("/a/masterfile.e")),
        Vault::new(String::from("b"), String::from("/b/masterfile.e")),
    ];
    recheck_vault_status(&mut vaults, &vec![VaultStatus::Mixed, VaultStatus::Locked]);
    assert_eq!(vaults[0].status, VaultStatus::Mixed);
    assert_eq!(vaults[1].status, VaultStatus::Locked);
    assert_eq!(vaults[1].name, "b");
    assert_eq!(vaults[1].path, "/b");
}

#[test]
fn input_cleaning() {
    assert_eq!(clean_input(String::from("1\n")), "1");
    assert_eq!(clean_input(String::from("1\r\n")), "1");
    assert_eq!(clean_input(String::from("'/Users/me/My Vault'\n")), "/Users/me/My Vault");
    assert_eq!(clean_input(String::from("/Users/me/vault \n")), "/Users/me/vault");
    // the closing quote is looked for before the space
    assert_eq!(clean_input(String::from("'/Users/me/My Vault' \n")), "/Users/me/My Vault'");
    assert_eq!(clean_input(String::from("plain")), "plain");
    assert_eq!(clean_input(String::from("")), "");
    assert_eq!(clean_input(String::from("'")), "");
}

#[test]
fn splitting_and_arrays() {
    assert_eq!(split_str("a,b,,c", ','), vec!["a", "b", "", "c"]);
    assert_eq!(split_str("", ','), vec![""]);
    let a: [u8; 3] = into_array(vec![1u8, 2, 3]);
    assert_eq!(a, [1, 2, 3]);
}
