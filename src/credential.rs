use vstd::prelude::*;
use crate::cipher::{ciphertext_of, decrypt, encrypt, plaintext_of};
use crate::error::Error;
use crate::text::{append_char, append_str};

verus! {

/// What a stored credential holds, as values.
pub struct CredentialView {
    pub place: Seq<char>,
    pub username: Seq<char>,
    pub password: Seq<char>,
    pub encrypted: bool,
}

/// A stored credential: the password of `username` at `place`. When `encrypted`
/// is set, `password` holds ciphertext under the vault passphrase, else plaintext.
#[derive(Debug)]
pub struct Password {
    pub password: String,
    pub username: String,
    pub place: String,
    pub encrypted: bool,
}

impl View for Password {
    type V = CredentialView;

    open spec fn view(&self) -> CredentialView {
        CredentialView {
            place: self.place@,
            username: self.username@,
            password: self.password@,
            encrypted: self.encrypted,
        }
    }
}

impl Clone for Password {
    fn clone(&self) -> (r: Self)
        ensures
            r == *self,
    {
        Password {
            password: self.password.clone(),
            username: self.username.clone(),
            place: self.place.clone(),
            encrypted: self.encrypted,
        }
    }
}

/// The views of a sequence of credentials.
pub open spec fn views(v: Seq<Password>) -> Seq<CredentialView> {
    v.map_values(|p: Password| p@)
}

/// `c` with its password encrypted under `key`; unchanged when it is encrypted already.
pub open spec fn encrypted_view(c: CredentialView, key: Seq<char>) -> CredentialView {
    if c.encrypted {
        c
    } else {
        CredentialView {
            place: c.place,
            username: c.username,
            password: ciphertext_of(c.password, key),
            encrypted: true,
        }
    }
}

/// `c` with its password decrypted under `key`; unchanged when it is plaintext already,
/// and `None` when its ciphertext does not decrypt under `key`.
pub open spec fn decrypted_view(c: CredentialView, key: Seq<char>) -> Option<CredentialView> {
    if !c.encrypted {
        Some(c)
    } else {
        match plaintext_of(c.password, key) {
            Some(p) => Some(
                CredentialView { place: c.place, username: c.username, password: p, encrypted: false },
            ),
            None => None,
        }
    }
}

/// The character that stands for the `encrypted` flag in a dump.
pub open spec fn flag_char(encrypted: bool) -> char {
    if encrypted {
        '1'
    } else {
        '0'
    }
}

/// A backup row: place, username and password joined by commas, then a line break.
pub open spec fn backup_row(c: CredentialView) -> Seq<char> {
    c.place + seq![','] + c.username + seq![','] + c.password + seq!['\n']
}

/// A dump row: place, username, password and the `encrypted` flag joined by commas.
pub open spec fn dump_row(c: CredentialView) -> Seq<char> {
    c.place + seq![','] + c.username + seq![','] + c.password + seq![','] + seq![flag_char(c.encrypted)]
}

/// The text that shows `c` to its owner; the password only when it is plaintext.
pub open spec fn description(c: CredentialView) -> Seq<char> {
    let shown = "\tplace = "@ + c.place + "\n\tusername = "@ + c.username;
    if c.encrypted {
        shown
    } else {
        shown + "\n\tpassword = "@ + c.password
    }
}

impl Password {
    /// A plaintext credential.
    pub fn new(username: String, place: String, password: String) -> (r: Self)
        ensures
            r@ == (CredentialView {
                place: place@,
                username: username@,
                password: password@,
                encrypted: false,
            }),
    {
        Password { password, place, encrypted: false, username }
    }

    /// Whether the password is held as ciphertext.
    pub fn is_encrypted(&self) -> (r: bool)
        ensures
            r == self.encrypted,
    {
        self.encrypted
    }

    /// Replaces a plaintext password by its ciphertext under `key` and sets the flag,
    /// both at once; an encrypted credential is left as it is.
    pub fn encrypt_password(&mut self, key: &str)
        ensures
            final(self)@ == encrypted_view(old(self)@, key@),
            !old(self).encrypted ==> decrypted_view(final(self)@, key@) == Some(old(self)@),
    {
        if !self.encrypted {
            self.password = encrypt(self.password.as_str(), key);
            self.encrypted = true;
        }
    }

    /// Replaces an encrypted password by its plaintext under `key` and clears the flag,
    /// both at once; a plaintext credential is left as it is. On `BadDecryption`
    /// nothing changes.
    pub fn decrypt_password(&mut self, key: &str) -> (r: Result<(), Error>)
        ensures
            match decrypted_view(old(self)@, key@) {
                Some(c) => r is Ok && final(self)@ == c,
                None => r == Err::<(), Error>(Error::BadDecryption) && final(self)@ == old(self)@,
            },
    {
        if self.encrypted {
            match decrypt(self.password.as_str(), key) {
                Ok(p) => {
                    self.password = p;
                    self.encrypted = false;
                    Ok(())
                },
                Err(e) => Err(e),
            }
        } else {
            Ok(())
        }
    }

    /// The row of this credential in a backup: `place,username,password` and a line break.
    pub fn to_csv_row(&self) -> (r: String)
        ensures
            r@ == backup_row(self@),
    {
        let mut r = self.place.clone();
        append_char(&mut r, ',');
        append_str(&mut r, self.username.as_str());
        append_char(&mut r, ',');
        append_str(&mut r, self.password.as_str());
        append_char(&mut r, '\n');
        r
    }

    /// The row of this credential in a dump: `place,username,password,flag`, the flag
    /// being `1` for an encrypted password and `0` otherwise.
    pub fn dump(&self) -> (r: String)
        ensures
            r@ == dump_row(self@),
    {
        let mut r = self.place.clone();
        append_char(&mut r, ',');
        append_str(&mut r, self.username.as_str());
        append_char(&mut r, ',');
        append_str(&mut r, self.password.as_str());
        append_char(&mut r, ',');
        if self.encrypted {
            append_char(&mut r, '1');
        } else {
            append_char(&mut r, '0');
        }
        r
    }

    /// The text that shows this credential; an encrypted password is not shown.
    pub fn describe(&self) -> (r: String)
        ensures
            r@ == description(self@),
    {
        let mut r = String::new();
        append_str(&mut r, "\tplace = ");
        append_str(&mut r, self.place.as_str());
        append_str(&mut r, "\n\tusername = ");
        append_str(&mut r, self.username.as_str());
        if !self.encrypted {
            append_str(&mut r, "\n\tpassword = ");
            append_str(&mut r, self.password.as_str());
        }
        r
    }
}

} // verus!
