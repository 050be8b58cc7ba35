use password_manager::cipher::{decrypt, encrypt};
use password_manager::credential::Password;
use password_manager::error::Error;

#[test]
fn encrypt_then_decrypt_gives_plaintext_back() {
    for (plain, key) in [("s3cr3t", "correct-horse"), ("", "k"), ("é, ünïcode\nline", ""), ("a,b,c", "key with spaces")] {
        let c = encrypt(plain, key);
        assert_eq!(decrypt(&c, key), Ok(plain.to_string()));
    }
}

#[test]
fn ciphertext_differs_from_plaintext_and_is_base64() {
    let c = encrypt("http://magiclen.org", "magickey");
    assert_ne!(c, "http://magiclen.org");
    assert_eq!(c, "DS/2U8royDnJDiNY2ps3f6ZoTbpZo8ZtUGYLGEjwLDQ=");
    assert!(c.chars().all(|ch| ch.is_ascii_alphanumeric() || ch == '+' || ch == '/' || ch == '='));
}

#[test]
fn encryption_is_deterministic() {
    assert_eq!(encrypt("same", "key"), encrypt("same", "key"));
    assert_ne!(encrypt("same", "key"), encrypt("same", "other key"));
}

#[test]
fn decrypt_with_wrong_key_fails() {
    let c = encrypt("s3cr3t", "k1");
    assert_eq!(decrypt(&c, "k2"), Err(Error::BadDecryption));
}

#[test]
fn decrypt_of_malformed_text_fails() {
    assert_eq!(decrypt("not base64 at all!", "k"), Err(Error::BadDecryption));
    assert_eq!(decrypt("QUJD", "k"), Err(Error::BadDecryption));
}

#[test]
fn password_encrypt_and_decrypt_move_flag_and_text_together() {
    let mut p = Password::new("alice".to_string(), "example.com".to_string(), "s3cr3t".to_string());
    assert!(!p.is_encrypted());
    p.encrypt_password("correct-horse");
    assert!(p.is_encrypted());
    assert_ne!(p.password, "s3cr3t");
    let cipher = p.password.clone();
    p.encrypt_password("correct-horse");
    assert_eq!(p.password, cipher);
    assert_eq!(p.decrypt_password("wrong"), Err(Error::BadDecryption));
    assert!(p.is_encrypted());
    assert_eq!(p.password, cipher);
    assert_eq!(p.decrypt_password("correct-horse"), Ok(()));
    assert!(!p.is_encrypted());
    assert_eq!(p.password, "s3cr3t");
    assert_eq!(p.decrypt_password("anything"), Ok(()));
    assert_eq!(p.password, "s3cr3t");
}

#[test]
fn rows_and_description() {
    let mut p = Password::new("alice".to_string(), "example.com".to_string(), "pw".to_string());
    assert_eq!(p.to_csv_row(), "example.com,alice,pw\n");
    assert_eq!(p.dump(), "example.com,alice,pw,0");
    assert_eq!(p.describe(), "\tplace = example.com\n\tusername = alice\n\tpassword = pw");
    p.encrypt_password("k");
    assert!(p.dump().ends_with(",1"));
    assert_eq!(p.describe(), "\tplace = example.com\n\tusername = alice");
}
