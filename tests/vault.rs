use password_manager::cipher::encrypt;
use password_manager::codec::DumpColumns;
use password_manager::credential::Password;
use password_manager::error::{Column, Error};
use password_manager::store::{decrypt_passwords, PasswordManager};

fn cred(place: &str, username: &str, password: &str) -> Password {
    Password::new(username.to_string(), place.to_string(), password.to_string())
}

#[test]
fn verify_before_initialize_is_missing_vault() {
    let vault = PasswordManager::new();
    assert!(!vault.save_file_exists());
    assert_eq!(vault.verify_key("p"), Err(Error::MissingVault));
}

#[test]
fn key_verification_after_initialize() {
    let mut vault = PasswordManager::new();
    assert_eq!(vault.save_new_key("correct-horse"), Ok(()));
    assert!(vault.save_file_exists());
    assert_eq!(vault.verify_key("correct-horse"), Ok(true));
    assert_eq!(vault.verify_key("correct-horsf"), Ok(false));
    assert_eq!(vault.verify_key(""), Ok(false));
}

#[test]
fn initialize_twice_is_refused() {
    let mut vault = PasswordManager::new();
    assert_eq!(vault.save_new_key("first"), Ok(()));
    assert_eq!(vault.save_new_key("second"), Err(Error::AlreadyInitialized));
    assert_eq!(vault.verify_key("first"), Ok(true));
    assert_eq!(vault.verify_key("second"), Ok(false));
}

#[test]
fn insert_same_place_keeps_one_record_with_second_values() {
    let mut vault = PasswordManager::new();
    vault.insert_password(cred("site", "u1", "p1"));
    vault.insert_password(cred("other", "u0", "p0"));
    vault.insert_password(cred("site", "u2", "p2"));
    let found = vault.get_password("site");
    assert_eq!(found.len(), 1);
    assert_eq!(found[0].username, "u2");
    assert_eq!(found[0].password, "p2");
    let all = vault.get_all_passwords();
    assert_eq!(all.len(), 2);
    assert_eq!(all[0].place, "site");
    assert_eq!(all[1].place, "other");
}

#[test]
fn lookup_modes_substring_and_exact() {
    let mut vault = PasswordManager::new();
    vault.insert_password(cred("github.com", "me", "pw"));
    vault.insert_password(cred("gitlab.com", "me", "pw"));
    vault.insert_password(cred("example.com", "me", "pw"));
    let partial = vault.get_passwords("git");
    assert_eq!(partial.len(), 2);
    assert_eq!(partial[0].place, "github.com");
    assert_eq!(partial[1].place, "gitlab.com");
    assert!(vault.get_password("git").is_empty());
    assert_eq!(vault.get_password("github.com").len(), 1);
    assert_eq!(vault.get_passwords("").len(), 3);
    assert!(vault.get_passwords("nothing").is_empty());
}

#[test]
fn delete_then_delete_again() {
    let mut vault = PasswordManager::new();
    vault.insert_password(cred("a", "u", "p"));
    vault.insert_password(cred("b", "u", "p"));
    assert_eq!(vault.delete_password("a"), Ok(()));
    assert!(vault.get_password("a").is_empty());
    assert_eq!(vault.get_all_passwords().len(), 1);
    assert_eq!(vault.delete_password("a"), Err(Error::NoCredential("a".to_string())));
}

#[test]
fn from_requires_one_hit() {
    let mut vault = PasswordManager::new();
    vault.insert_password(cred("a", "u", "p"));
    assert_eq!(Password::from("a", &vault).map(|p| p.username), Ok("u".to_string()));
    assert_eq!(Password::from("b", &vault).map(|p| p.username), Err(Error::NoCredential("b".to_string())));
}

#[test]
fn scenario_encrypted_credential() {
    let mut vault = PasswordManager::new();
    assert_eq!(vault.save_new_key("correct-horse"), Ok(()));
    let stored = Password {
        place: "example.com".to_string(),
        username: "alice".to_string(),
        password: encrypt("s3cr3t", "correct-horse"),
        encrypted: true,
    };
    vault.insert_password(stored);
    let found = vault.get_password("example.com");
    assert_eq!(found.len(), 1);
    let mut good = found[0].clone();
    assert_eq!(good.decrypt_password("correct-horse"), Ok(()));
    assert_eq!(good.password, "s3cr3t");
    let mut bad = found[0].clone();
    assert_eq!(bad.decrypt_password("wrong"), Err(Error::BadDecryption));
}

#[test]
fn save_password_encrypts_on_request() {
    let mut vault = PasswordManager::new();
    vault.save_password("pw", "u", "enc", true, Some("k"));
    vault.save_password("pw", "u", "plain", false, None);
    let enc = &vault.get_password("enc")[0];
    assert!(enc.encrypted);
    assert_eq!(enc.password, encrypt("pw", "k"));
    let plain = &vault.get_password("plain")[0];
    assert!(!plain.encrypted);
    assert_eq!(plain.password, "pw");
}

#[test]
fn decrypted_listing() {
    let mut vault = PasswordManager::new();
    vault.save_password("one", "u", "a", true, Some("k"));
    vault.save_password("two", "u", "b", false, None);
    let all = vault.get_all_decrypted_passwords("k").unwrap();
    assert_eq!(all[0].password, "one");
    assert!(!all[0].encrypted);
    assert_eq!(all[1].password, "two");
    assert!(vault.get_all_decrypted_passwords("wrong").is_err());
}

#[test]
fn edit_keeps_place_and_reencrypts() {
    let mut vault = PasswordManager::new();
    vault.save_password("old", "u", "site", true, Some("k"));
    vault.save_password("x", "v", "zzz", false, None);
    assert_eq!(vault.edit_password("site", "k", None, Some("new-user".to_string()), None, true), Ok(()));
    let all = vault.get_all_passwords();
    assert_eq!(all[0].place, "site");
    assert_eq!(all[0].username, "new-user");
    assert!(all[0].encrypted);
    assert_eq!(all[0].password, encrypt("old", "k"));
}

#[test]
fn edit_renames_and_stores_plaintext() {
    let mut vault = PasswordManager::new();
    vault.save_password("old", "u", "site", true, Some("k"));
    assert_eq!(
        vault.edit_password("site", "k", Some("renamed".to_string()), None, Some("new".to_string()), false),
        Ok(())
    );
    assert!(vault.get_password("site").is_empty());
    let r = &vault.get_password("renamed")[0];
    assert_eq!(r.password, "new");
    assert_eq!(r.username, "u");
    assert!(!r.encrypted);
}

#[test]
fn edit_errors_leave_vault_alone() {
    let mut vault = PasswordManager::new();
    vault.save_password("old", "u", "site", true, Some("k"));
    assert_eq!(
        vault.edit_password("nowhere", "k", None, None, None, true),
        Err(Error::NoCredential("nowhere".to_string()))
    );
    assert_eq!(vault.edit_password("site", "wrong", None, None, None, false), Err(Error::BadDecryption));
    let r = &vault.get_password("site")[0];
    assert!(r.encrypted);
    assert_eq!(r.password, encrypt("old", "k"));
}

#[test]
fn load_dump_into_vault_replaces_same_place() {
    let mut vault = PasswordManager::new();
    vault.insert_password(cred("a", "old", "old"));
    let text = "place,username,password,encrypted\na,u,p,0\nb,v,q,1\n";
    assert_eq!(vault.load_dump(text, &DumpColumns::new()), Ok(2));
    let a = &vault.get_password("a")[0];
    assert_eq!(a.username, "u");
    assert!(vault.get_password("b")[0].encrypted);
    assert_eq!(vault.get_all_passwords().len(), 2);
}

#[test]
fn load_dump_error_leaves_vault_alone() {
    let mut vault = PasswordManager::new();
    let text = "place,username,password,encrypted\na,u,p,0\nb,v\n";
    assert_eq!(vault.load_dump(text, &DumpColumns::new()), Err(Error::MissingField(Column::Password, 3)));
    assert!(vault.get_all_passwords().is_empty());
}

#[test]
fn load_backup_encrypts_when_asked() {
    let mut vault = PasswordManager::new();
    let text = "place,username,password\na,u,p\n";
    assert_eq!(vault.load_backup(text, &DumpColumns::new(), Some("k")), Ok(1));
    let a = &vault.get_password("a")[0];
    assert!(a.encrypted);
    assert_eq!(a.password, encrypt("p", "k"));
    let mut plain = PasswordManager::new();
    assert_eq!(plain.load_backup(text, &DumpColumns::new(), None), Ok(1));
    assert_eq!(plain.get_password("a")[0].password, "p");
}

#[test]
fn stored_hash_is_bcrypt_with_the_vault_cost() {
    let mut vault = PasswordManager::new();
    assert!(vault.setting().is_none());
    assert_eq!(vault.save_new_key("correct-horse"), Ok(()));
    let hash = &vault.setting().unwrap().value;
    assert_eq!(hash.len(), 60);
    assert!(hash.starts_with("$2b$08$"));
    assert_ne!(hash, "correct-horse");
}

#[test]
fn decrypt_list_of_credentials() {
    let mut enc = cred("a", "u", "one");
    enc.encrypt_password("k");
    let list = vec![enc, cred("b", "v", "two")];
    let plain = decrypt_passwords(&list, "k").unwrap();
    assert_eq!(plain[0].password, "one");
    assert!(!plain[0].encrypted);
    assert_eq!(plain[1].password, "two");
    assert_eq!(decrypt_passwords(&list, "wrong").map(|v| v.len()), Err(Error::BadDecryption));
}
