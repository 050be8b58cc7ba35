use vstd::prelude::*;
use magic_crypt::{MagicCrypt256, MagicCryptError, MagicCryptTrait};
use crate::error::Error;

verus! {

#[verifier::external_type_specification]
#[verifier::external_body]
pub struct ExMagicCryptError(MagicCryptError);

/// The base64 text that AES-256 encryption of `plain` under the passphrase `key` yields.
pub uninterp spec fn ciphertext_of(plain: Seq<char>, key: Seq<char>) -> Seq<char>;

/// The text that decrypting `cipher` under the passphrase `key` recovers, or `None`
/// when `cipher` is not base64, fails the padding check, or is not UTF-8 once decrypted.
pub uninterp spec fn plaintext_of(cipher: Seq<char>, key: Seq<char>) -> Option<Seq<char>>;

/// A character of the standard base64 alphabet, padding included.
pub open spec fn is_base64_char(c: char) -> bool {
    ('A' <= c && c <= 'Z') || ('a' <= c && c <= 'z') || ('0' <= c && c <= '9') || c == '+'
        || c == '/' || c == '='
}

/// What `decrypt` returns for the ciphertext `cipher` under the passphrase `key`.
pub open spec fn decrypt_result(cipher: Seq<char>, key: Seq<char>) -> Result<Seq<char>, Error> {
    match plaintext_of(cipher, key) {
        Some(p) => Ok(p),
        None => Err(Error::BadDecryption),
    }
}

/// Relies on magic_crypt's `MagicCrypt256::encrypt_str_to_base64`: AES-256-CBC under the
/// SHA-256 of the passphrase with a zero IV, then standard base64. The result depends on
/// the two texts alone, holds only base64 characters, and decrypts back to `plain`.
#[verifier::external_body]
fn aes_encrypt(plain: &str, key: &str) -> (r: String)
    ensures
        r@ == ciphertext_of(plain@, key@),
        plaintext_of(r@, key@) == Some(plain@),
        forall|i: int| 0 <= i < r@.len() ==> is_base64_char(#[trigger] r@[i]),
{
    MagicCrypt256::new(key, None::<String>).encrypt_str_to_base64(plain)
}

/// Relies on magic_crypt's `MagicCrypt256::decrypt_base64_to_string`: base64 decoding,
/// AES-256-CBC decryption and a UTF-8 check, failing with `MagicCryptError` at any step.
#[verifier::external_body]
fn aes_decrypt(cipher: &str, key: &str) -> (r: Result<String, MagicCryptError>)
    ensures
        match r {
            Ok(p) => plaintext_of(cipher@, key@) == Some(p@),
            Err(_) => plaintext_of(cipher@, key@) is None,
        },
{
    MagicCrypt256::new(key, None::<String>).decrypt_base64_to_string(cipher)
}

/// Decrypting a ciphertext under a passphrase that AES-256 rejects for it reports
/// `BadDecryption`: no plaintext comes back. Whether AES rejects a wrong passphrase is
/// up to the cipher, which carries no integrity tag and fails only on bad padding or
/// non-UTF-8 output.
pub proof fn lemma_rejected_key_is_bad_decryption(s: Seq<char>, k1: Seq<char>, k2: Seq<char>)
    requires
        plaintext_of(ciphertext_of(s, k1), k2) is None,
    ensures
        decrypt_result(ciphertext_of(s, k1), k2) == Err::<Seq<char>, Error>(Error::BadDecryption),
{
}

/// Encrypts `plaintext` under the passphrase `key` into printable base64 text.
/// Decrypting the result under the same passphrase gives `plaintext` back.
pub fn encrypt(plaintext: &str, key: &str) -> (r: String)
    ensures
        r@ == ciphertext_of(plaintext@, key@),
        decrypt_result(r@, key@) == Ok::<Seq<char>, Error>(plaintext@),
        forall|i: int| 0 <= i < r@.len() ==> is_base64_char(#[trigger] r@[i]),
{
    aes_encrypt(plaintext, key)
}

/// Decrypts base64 `ciphertext` under the passphrase `key`; `BadDecryption` when the text
/// is malformed or the passphrase is not the one it was encrypted under.
pub fn decrypt(ciphertext: &str, key: &str) -> (r: Result<String, Error>)
    ensures
        match r {
            Ok(p) => decrypt_result(ciphertext@, key@) == Ok::<Seq<char>, Error>(p@),
            Err(e) => decrypt_result(ciphertext@, key@) == Err::<Seq<char>, Error>(e),
        },
{
    match aes_decrypt(ciphertext, key) {
        Ok(p) => Ok(p),
        Err(_) => Err(Error::BadDecryption),
    }
}

} // verus!
