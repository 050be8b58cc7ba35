use vstd::prelude::*;
use bcrypt::BcryptError;
use crate::cipher::{ciphertext_of, plaintext_of};
use crate::codec::{digit_char, int_opt, parse_dump, parse_text, restore_backup, DumpColumns};
use crate::credential::{decrypted_view, encrypted_view, views, CredentialView, Password};
use crate::error::Error;
use crate::text::{chars_of, contains_run, has_run};

verus! {

/// The bcrypt cost with which the access-check hash is computed.
pub const HASH_COST: u32 = 8;

#[verifier::external_type_specification]
#[verifier::external_body]
pub struct ExBcryptError(BcryptError);

/// Whether bcrypt finds `password` to match the bcrypt hash text `hash`: `None`
/// when `hash` is not a well-formed bcrypt hash.
pub uninterp spec fn bcrypt_verdict(password: Seq<char>, hash: Seq<char>) -> Option<bool>;

/// The text that opens a bcrypt hash made with `cost`: `$2b$`, the cost in two digits,
/// and `$`.
pub open spec fn bcrypt_prefix(cost: nat) -> Seq<char> {
    seq!['$', '2', 'b', '$', digit_char(cost / 10), digit_char(cost % 10), '$']
}

/// Relies on `bcrypt::hash`: a bcrypt hash of `password` under a random salt, which
/// `bcrypt::verify` accepts for `password`. Its text is the prefix of version `2b` and
/// the cost, then 22 characters of salt and 31 of hash. It fails on a cost outside
/// 4 to 31 or when the system gives no random salt.
#[verifier::external_body]
fn bcrypt_hash(password: &str, cost: u32) -> (r: Result<String, BcryptError>)
    ensures
        r is Ok ==> bcrypt_verdict(password@, r->Ok_0@) == Some(true),
        r is Ok ==> 4 <= cost <= 31 && r->Ok_0@.len() == 60 && r->Ok_0@.subrange(0, 7)
            == bcrypt_prefix(cost as nat),
{
    bcrypt::hash(password, cost)
}

/// Relies on `bcrypt::verify`: recomputes the hash of `password` with the salt and cost
/// read from `hash` and compares in constant time; fails on a malformed `hash`.
#[verifier::external_body]
fn bcrypt_verify(password: &str, hash: &str) -> (r: Result<bool, BcryptError>)
    ensures
        match r {
            Ok(b) => bcrypt_verdict(password@, hash@) == Some(b),
            Err(_) => bcrypt_verdict(password@, hash@) is None,
        },
{
    bcrypt::verify(password, hash)
}

/// The name of a vault setting.
#[derive(Debug, Clone, Copy, PartialEq, Eq)]
pub enum ConfigParams {
    /// The salted hash of the vault passphrase.
    AccessCheck,
}

/// One vault setting.
#[derive(Debug)]
pub struct ConfigItem {
    pub name: ConfigParams,
    pub value: String,
}

/// What a vault holds: its credentials in order, and its access-check hash once set.
pub struct VaultView {
    pub records: Seq<CredentialView>,
    pub access_check: Option<Seq<char>>,
}

/// No two credentials of `s` share a place.
pub open spec fn places_unique(s: Seq<CredentialView>) -> bool {
    forall|i: int, j: int|
        0 <= i < s.len() && 0 <= j < s.len() && i != j ==> #[trigger] s[i].place != #[trigger] s[j].place
}

/// The first position of a credential for `place` in `s`.
pub open spec fn place_index(s: Seq<CredentialView>, place: Seq<char>) -> Option<int>
    decreases s.len(),
{
    if s.len() == 0 {
        None
    } else {
        match place_index(s.drop_last(), place) {
            Some(i) => Some(i),
            None => if s.last().place == place {
                Some(s.len() - 1)
            } else {
                None
            },
        }
    }
}

/// `s` with `c` stored under its place: the credential there is replaced in full, or,
/// when there is none, `c` comes last.
pub open spec fn upsert(s: Seq<CredentialView>, c: CredentialView) -> Seq<CredentialView> {
    match place_index(s, c.place) {
        Some(i) => s.update(i, c),
        None => s.push(c),
    }
}

/// `s` with each credential of `cs` stored in turn.
pub open spec fn upsert_all(s: Seq<CredentialView>, cs: Seq<CredentialView>) -> Seq<CredentialView>
    decreases cs.len(),
{
    if cs.len() == 0 {
        s
    } else {
        upsert(upsert_all(s, cs.drop_last()), cs.last())
    }
}

/// `s` without the credential for `place`.
pub open spec fn without_place(s: Seq<CredentialView>, place: Seq<char>) -> Seq<CredentialView> {
    match place_index(s, place) {
        Some(i) => s.remove(i),
        None => s,
    }
}

/// Whether a credential's place is `place`.
pub open spec fn place_is(place: Seq<char>) -> spec_fn(CredentialView) -> bool {
    |c: CredentialView| c.place == place
}

/// Whether a credential's place holds `query`.
pub open spec fn place_holds(query: Seq<char>) -> spec_fn(CredentialView) -> bool {
    |c: CredentialView| contains_run(c.place, query)
}

/// The credentials of `s` whose place is `place`.
pub open spec fn exact_matches(s: Seq<CredentialView>, place: Seq<char>) -> Seq<CredentialView> {
    s.filter(place_is(place))
}

/// The credentials of `s` whose place holds `query`.
pub open spec fn partial_matches(s: Seq<CredentialView>, query: Seq<char>) -> Seq<CredentialView> {
    s.filter(place_holds(query))
}

/// What `verify_key` answers for the candidate passphrase `key`.
pub open spec fn verify_outcome(access_check: Option<Seq<char>>, key: Seq<char>) -> Result<bool, Error> {
    match access_check {
        None => Err(Error::MissingVault),
        Some(h) => match bcrypt_verdict(key, h) {
            Some(b) => Ok(b),
            None => Err(Error::VerificationFailed),
        },
    }
}

/// The credentials of `s` with every password in plaintext under `key`, or `None`
/// when one of them does not decrypt.
pub open spec fn all_decrypted(s: Seq<CredentialView>, key: Seq<char>) -> Option<Seq<CredentialView>>
    decreases s.len(),
{
    if s.len() == 0 {
        Some(Seq::empty())
    } else {
        match all_decrypted(s.drop_last(), key) {
            None => None,
            Some(prev) => match decrypted_view(s.last(), key) {
                None => None,
                Some(c) => Some(prev.push(c)),
            },
        }
    }
}

/// The vault: its credentials, one per place, and the access-check setting.
pub struct PasswordManager {
    passwords: Vec<Password>,
    config: Option<ConfigItem>,
}

impl View for PasswordManager {
    type V = VaultView;

    closed spec fn view(&self) -> VaultView {
        VaultView {
            records: views(self.passwords@),
            access_check: match self.config {
                Some(c) => Some(c.value@),
                None => None,
            },
        }
    }
}

proof fn lemma_place_index(s: Seq<CredentialView>, place: Seq<char>)
    ensures
        match place_index(s, place) {
            Some(i) => 0 <= i < s.len() && s[i].place == place,
            None => forall|j: int| 0 <= j < s.len() ==> #[trigger] s[j].place != place,
        },
    decreases s.len(),
{
    if s.len() > 0 {
        let t = s.drop_last();
        lemma_place_index(t, place);
        assert forall|j: int| 0 <= j < t.len() implies t[j] == s[j] by {}
    }
}

proof fn lemma_place_index_unique(s: Seq<CredentialView>, i: int)
    requires
        places_unique(s),
        0 <= i < s.len(),
    ensures
        place_index(s, s[i].place) == Some(i),
{
    lemma_place_index(s, s[i].place);
}

proof fn lemma_upsert_unique(s: Seq<CredentialView>, c: CredentialView)
    requires
        places_unique(s),
    ensures
        places_unique(upsert(s, c)),
{
    lemma_place_index(s, c.place);
    let t = upsert(s, c);
    assert forall|i: int, j: int| 0 <= i < t.len() && 0 <= j < t.len() && i != j implies #[trigger] t[i].place
        != #[trigger] t[j].place by {
        if i < s.len() && j < s.len() {
            if place_index(s, c.place) is None {
                assert(t[i] == s[i] && t[j] == s[j]);
            }
        }
    }
}

impl PasswordManager {
    /// The vault's invariant: no two credentials share a place.
    pub open spec fn wf(&self) -> bool {
        places_unique(self@.records)
    }

    /// An empty vault, not initialized yet.
    pub fn new() -> (r: Self)
        ensures
            r.wf(),
            r@.records == Seq::<CredentialView>::empty(),
            r@.access_check is None,
    {
        let r = PasswordManager { passwords: Vec::new(), config: None };
        assert(views(r.passwords@) =~= Seq::<CredentialView>::empty());
        r
    }

    /// A vault read back from storage: each of `records` stored in turn, as
    /// `insert_password` does, and `setting` as its access-check hash.
    pub fn from_storage(records: Vec<Password>, setting: Option<ConfigItem>) -> (r: Self)
        ensures
            r.wf(),
            r@.records == upsert_all(Seq::<CredentialView>::empty(), views(records@)),
            r@.access_check == match setting {
                Some(c) => Some(c.value@),
                None => None::<Seq<char>>,
            },
    {
        let mut r = PasswordManager { passwords: Vec::new(), config: setting };
        assert(views(r.passwords@) =~= Seq::<CredentialView>::empty());
        r.store_all(&records, None);
        r
    }

    /// The access-check setting, for writing the vault back to storage.
    pub fn setting(&self) -> (r: Option<&ConfigItem>)
        ensures
            match r {
                Some(c) => self@.access_check == Some(c.value@),
                None => self@.access_check is None,
            },
    {
        match &self.config {
            Some(c) => Some(c),
            None => None,
        }
    }

    /// Whether the vault has been initialized with an access-check hash.
    pub fn save_file_exists(&self) -> (r: bool)
        ensures
            r == self@.access_check is Some,
    {
        self.config.is_some()
    }

    /// Initializes the vault: stores a salted bcrypt hash of `key` made with cost
    /// `HASH_COST`.
    /// Fails with `AlreadyInitialized` when a hash is stored already, and with
    /// `HashError` when hashing fails; the vault is unchanged on failure.
    pub fn save_new_key(&mut self, key: &str) -> (r: Result<(), Error>)
        requires
            old(self).wf(),
        ensures
            final(self).wf(),
            final(self)@.records == old(self)@.records,
            old(self)@.access_check is Some ==> r == Err::<(), Error>(Error::AlreadyInitialized)
                && final(self)@ == old(self)@,
            old(self)@.access_check is None ==> match r {
                Ok(_) => final(self)@.access_check is Some && bcrypt_verdict(
                    key@,
                    final(self)@.access_check->Some_0,
                ) == Some(true) && final(self)@.access_check->Some_0.len() == 60
                    && final(self)@.access_check->Some_0.subrange(0, 7) == bcrypt_prefix(
                    HASH_COST as nat,
                ),
                Err(e) => e == Error::HashError && final(self)@ == old(self)@,
            },
    {
        if self.config.is_some() {
            return Err(Error::AlreadyInitialized);
        }
        match bcrypt_hash(key, HASH_COST) {
            Ok(h) => {
                self.config = Some(ConfigItem { name: ConfigParams::AccessCheck, value: h });
                Ok(())
            },
            Err(_) => Err(Error::HashError),
        }
    }

    /// Checks a candidate passphrase against the stored hash: `Ok(true)` when it
    /// matches, `Ok(false)` when not, `MissingVault` before initialization, and
    /// `VerificationFailed` when the stored hash is malformed.
    pub fn verify_key(&self, key: &str) -> (r: Result<bool, Error>)
        ensures
            r == verify_outcome(self@.access_check, key@),
    {
        match &self.config {
            None => Err(Error::MissingVault),
            Some(c) => match bcrypt_verify(key, c.value.as_str()) {
                Ok(b) => Ok(b),
                Err(_) => Err(Error::VerificationFailed),
            },
        }
    }

    /// The position of the credential for `place`.
    fn find_place(&self, place: &str) -> (r: Option<usize>)
        ensures
            int_opt(r) == place_index(self@.records, place@),
    {
        let wanted = place.to_owned();
        let ghost s = self@.records;
        let mut i: usize = 0;
        while i < self.passwords.len()
            invariant
                i <= self.passwords.len(),
                s == views(self.passwords@),
                wanted@ == place@,
                place_index(s.subrange(0, i as int), place@) is None,
            decreases self.passwords.len() - i,
        {
            assert(s.subrange(0, i + 1).drop_last() =~= s.subrange(0, i as int));
            if self.passwords[i].place == wanted {
                proof {
                    lemma_place_index_extends(s, i + 1, place@);
                }
                return Some(i);
            }
            i = i + 1;
        }
        assert(s.subrange(0, s.len() as int) =~= s);
        None
    }

    /// Stores `password` under its place, replacing in full the credential that was
    /// there, if any.
    pub fn insert_password(&mut self, password: Password)
        requires
            old(self).wf(),
        ensures
            final(self).wf(),
            final(self)@.records == upsert(old(self)@.records, password@),
            final(self)@.access_check == old(self)@.access_check,
    {
        proof {
            lemma_upsert_unique(views(self.passwords@), password@);
            lemma_place_index(views(self.passwords@), password@.place);
        }
        let ghost c = password@;
        match self.find_place(password.place.as_str()) {
            Some(i) => {
                self.passwords.set(i, password);
                assert(views(self.passwords@) =~= views(old(self).passwords@).update(i as int, c));
            },
            None => {
                self.passwords.push(password);
                assert(views(self.passwords@) =~= views(old(self).passwords@).push(c));
            },
        }
    }

    /// The same as `insert_password`: with one credential per place, an edit that keeps
    /// the place overwrites the credential in full.
    pub fn update_password(&mut self, password: Password)
        requires
            old(self).wf(),
        ensures
            final(self).wf(),
            final(self)@.records == upsert(old(self)@.records, password@),
            final(self)@.access_check == old(self)@.access_check,
    {
        self.insert_password(password);
    }

    /// Stores `password` for `username` at `place`; encrypted under `key` when `encrypt`
    /// holds, as plaintext otherwise.
    pub fn save_password(
        &mut self,
        password: &str,
        username: &str,
        place: &str,
        encrypt: bool,
        key: Option<&str>,
    )
        requires
            old(self).wf(),
            encrypt ==> key is Some,
        ensures
            final(self).wf(),
            final(self)@.records == upsert(
                old(self)@.records,
                CredentialView {
                    place: place@,
                    username: username@,
                    password: if encrypt {
                        ciphertext_of(password@, key->Some_0@)
                    } else {
                        password@
                    },
                    encrypted: encrypt,
                },
            ),
            encrypt ==> plaintext_of(ciphertext_of(password@, key->Some_0@), key->Some_0@) == Some(
                password@,
            ),
            final(self)@.access_check == old(self)@.access_check,
    {
        let mut record = Password::new(username.to_owned(), place.to_owned(), password.to_owned());
        if encrypt {
            match key {
                Some(k) => record.encrypt_password(k),
                None => {},
            }
        }
        self.insert_password(record);
    }

    /// Removes the credential for `place`; `NoCredential` when there is none, and then
    /// the vault is unchanged.
    pub fn delete_password(&mut self, place: &str) -> (r: Result<(), Error>)
        requires
            old(self).wf(),
        ensures
            final(self).wf(),
            final(self)@.access_check == old(self)@.access_check,
            final(self)@.records == without_place(old(self)@.records, place@),
            place_index(old(self)@.records, place@) is Some <==> r is Ok,
            r matches Err(e) ==> e matches Error::NoCredential(p) && p@ == place@,
    {
        proof {
            lemma_place_index(views(self.passwords@), place@);
        }
        match self.find_place(place) {
            Some(i) => {
                let ghost before = views(self.passwords@);
                self.passwords.remove(i);
                assert(views(self.passwords@) =~= before.remove(i as int));
                assert(places_unique(views(self.passwords@))) by {
                    let t = views(self.passwords@);
                    assert forall|a: int, b: int|
                        0 <= a < t.len() && 0 <= b < t.len() && a != b implies #[trigger] t[a].place
                        != #[trigger] t[b].place by {
                        let a2 = if a < i { a } else { a + 1 };
                        let b2 = if b < i { b } else { b + 1 };
                        assert(t[a] == before[a2] && t[b] == before[b2]);
                    }
                }
                Ok(())
            },
            None => Err(Error::NoCredential(place.to_owned())),
        }
    }

    /// The credentials whose place is exactly `place`: at most one.
    pub fn get_password(&self, place: &str) -> (r: Vec<Password>)
        ensures
            views(r@) == exact_matches(self@.records, place@),
    {
        let wanted = place.to_owned();
        let ghost s = self@.records;
        let ghost pred = place_is(place@);
        let mut out: Vec<Password> = Vec::new();
        let mut i: usize = 0;
        proof {
            reveal(Seq::filter);
            assert(s.subrange(0, 0) =~= Seq::<CredentialView>::empty());
            assert(views(out@) =~= Seq::<CredentialView>::empty());
        }
        while i < self.passwords.len()
            invariant
                i <= self.passwords.len(),
                s == views(self.passwords@),
                wanted@ == place@,
                pred == place_is(place@),
                views(out@) == s.subrange(0, i as int).filter(pred),
            decreases self.passwords.len() - i,
        {
            proof {
                reveal(Seq::filter);
                let t = s.subrange(0, i + 1);
                assert(t.drop_last() =~= s.subrange(0, i as int));
                assert(t.last() == s[i as int]);
                assert(t.filter(pred) == if pred(s[i as int]) {
                    s.subrange(0, i as int).filter(pred).push(s[i as int])
                } else {
                    s.subrange(0, i as int).filter(pred)
                });
            }
            assert(s[i as int] == self.passwords@[i as int]@);
            if self.passwords[i].place == wanted {
                assert(pred(s[i as int]));
                let ghost before = out@;
                out.push(self.passwords[i].clone());
                assert(views(out@) =~= views(before).push(s[i as int]));
            } else {
                assert(!pred(s[i as int]));
            }
            i = i + 1;
        }
        assert(s.subrange(0, s.len() as int) =~= s);
        out
    }

    /// The credentials whose place holds `query` as a contiguous run of characters,
    /// in the vault's order.
    pub fn get_passwords(&self, query: &str) -> (r: Vec<Password>)
        ensures
            views(r@) == partial_matches(self@.records, query@),
    {
        let q = chars_of(query);
        let ghost s = self@.records;
        let ghost pred = place_holds(query@);
        let mut out: Vec<Password> = Vec::new();
        let mut i: usize = 0;
        proof {
            reveal(Seq::filter);
            assert(s.subrange(0, 0) =~= Seq::<CredentialView>::empty());
            assert(views(out@) =~= Seq::<CredentialView>::empty());
        }
        while i < self.passwords.len()
            invariant
                i <= self.passwords.len(),
                s == views(self.passwords@),
                q@ == query@,
                pred == place_holds(query@),
                views(out@) == s.subrange(0, i as int).filter(pred),
            decreases self.passwords.len() - i,
        {
            proof {
                reveal(Seq::filter);
                let t = s.subrange(0, i + 1);
                assert(t.drop_last() =~= s.subrange(0, i as int));
                assert(t.last() == s[i as int]);
                assert(t.filter(pred) == if pred(s[i as int]) {
                    s.subrange(0, i as int).filter(pred).push(s[i as int])
                } else {
                    s.subrange(0, i as int).filter(pred)
                });
            }
            let candidate = chars_of(self.passwords[i].place.as_str());
            assert(s[i as int] == self.passwords@[i as int]@);
            if has_run(&candidate, &q) {
                assert(pred(s[i as int]));
                let ghost before = out@;
                out.push(self.passwords[i].clone());
                assert(views(out@) =~= views(before).push(s[i as int]));
            } else {
                assert(!pred(s[i as int]));
            }
            i = i + 1;
        }
        assert(s.subrange(0, s.len() as int) =~= s);
        out
    }

    /// Every credential, in the vault's order.
    pub fn get_all_passwords(&self) -> (r: Vec<Password>)
        ensures
            views(r@) == self@.records,
    {
        let ghost s = self@.records;
        let mut out: Vec<Password> = Vec::new();
        let mut i: usize = 0;
        while i < self.passwords.len()
            invariant
                i <= self.passwords.len(),
                s == views(self.passwords@),
                views(out@) == s.subrange(0, i as int),
            decreases self.passwords.len() - i,
        {
            let ghost before = out@;
            out.push(self.passwords[i].clone());
            assert(views(out@) =~= views(before).push(s[i as int]));
            assert(s.subrange(0, i + 1) =~= s.subrange(0, i as int).push(s[i as int]));
            i = i + 1;
        }
        assert(s.subrange(0, s.len() as int) =~= s);
        out
    }

    /// Every credential, in the vault's order, with its password decrypted under `key`;
    /// `BadDecryption` when one of them does not decrypt.
    pub fn get_all_decrypted_passwords(&self, key: &str) -> (r: Result<Vec<Password>, Error>)
        ensures
            match all_decrypted(self@.records, key@) {
                Some(cs) => r matches Ok(v) && views(v@) == cs,
                None => r == Err::<Vec<Password>, Error>(Error::BadDecryption),
            },
    {
        decrypt_passwords(&self.passwords, key)
    }

    /// Edits the credential stored for `place` under the passphrase `key`: its password
    /// is decrypted, the fields given are replaced, the password is encrypted again when
    /// `encrypt` holds, and the result is written back, under its new place if one is
    /// given. `NoCredential` or `BadDecryption` leave the vault unchanged.
    pub fn edit_password(
        &mut self,
        place: &str,
        key: &str,
        new_place: Option<String>,
        new_username: Option<String>,
        new_password: Option<String>,
        encrypt: bool,
    ) -> (r: Result<(), Error>)
        requires
            old(self).wf(),
        ensures
            final(self).wf(),
            final(self)@.access_check == old(self)@.access_check,
            match place_index(old(self)@.records, place@) {
                None => r matches Err(e) && e matches Error::NoCredential(p) && p@ == place@
                    && final(self)@ == old(self)@,
                Some(i) => match decrypted_view(old(self)@.records[i], key@) {
                    None => r == Err::<(), Error>(Error::BadDecryption) && final(self)@ == old(self)@,
                    Some(plain) => r is Ok && final(self)@.records == edited_records(
                        old(self)@.records,
                        place@,
                        edited(plain, new_place, new_username, new_password, encrypt, key@),
                    ) && (encrypt ==> plaintext_of(
                        edited(plain, new_place, new_username, new_password, true, key@).password,
                        key@,
                    ) == Some(edited(plain, new_place, new_username, new_password, false, key@).password)),
                },
            },
    {
        proof {
            lemma_place_index(views(self.passwords@), place@);
        }
        let i = match self.find_place(place) {
            Some(i) => i,
            None => return Err(Error::NoCredential(place.to_owned())),
        };
        let mut record = self.passwords[i].clone();
        match record.decrypt_password(key) {
            Ok(_) => {},
            Err(e) => return Err(e),
        }
        let target = match new_place {
            Some(p) => p,
            None => record.place.clone(),
        };
        let username = match new_username {
            Some(u) => u,
            None => record.username.clone(),
        };
        let password = match new_password {
            Some(w) => w,
            None => record.password.clone(),
        };
        let mut changed = Password { password, username, place: target, encrypted: false };
        if encrypt {
            changed.encrypt_password(key);
        }
        if changed.place != record.place {
            let _ = self.delete_password(place);
        }
        self.insert_password(changed);
        Ok(())
    }

    /// Reads a dump with `parse_dump` and stores each of its credentials in turn, as
    /// `insert_password` does; the count read comes back. On an error the vault is
    /// unchanged.
    pub fn load_dump(&mut self, text: &str, columns: &DumpColumns) -> (r: Result<usize, Error>)
        requires
            old(self).wf(),
        ensures
            final(self).wf(),
            final(self)@.access_check == old(self)@.access_check,
            match parse_text(text@, *columns, true) {
                Ok(cs) => r == Ok::<usize, Error>(cs.len() as usize) && final(self)@.records
                    == upsert_all(old(self)@.records, cs),
                Err(e) => r == Err::<usize, Error>(e) && final(self)@ == old(self)@,
            },
    {
        match parse_dump(text, columns) {
            Err(e) => Err(e),
            Ok(v) => {
                self.store_all(&v, None);
                Ok(v.len())
            },
        }
    }

    /// Reads a backup with `restore_backup` and stores each of its credentials in turn,
    /// encrypted under `key` when one is given; the count read comes back. On an error
    /// the vault is unchanged.
    pub fn load_backup(&mut self, text: &str, columns: &DumpColumns, key: Option<&str>) -> (r: Result<
        usize,
        Error,
    >)
        requires
            old(self).wf(),
        ensures
            final(self).wf(),
            final(self)@.access_check == old(self)@.access_check,
            match parse_text(text@, *columns, false) {
                Ok(cs) => r == Ok::<usize, Error>(cs.len() as usize) && final(self)@.records
                    == upsert_all(old(self)@.records, encrypted_all(cs, key_view(key))),
                Err(e) => r == Err::<usize, Error>(e) && final(self)@ == old(self)@,
            },
    {
        match restore_backup(text, columns) {
            Err(e) => Err(e),
            Ok(v) => {
                self.store_all(&v, key);
                Ok(v.len())
            },
        }
    }

    /// Stores each credential of `v` in turn, encrypted under `key` when one is given.
    fn store_all(&mut self, v: &Vec<Password>, key: Option<&str>)
        requires
            old(self).wf(),
        ensures
            final(self).wf(),
            final(self)@.access_check == old(self)@.access_check,
            final(self)@.records == upsert_all(old(self)@.records, encrypted_all(views(v@), key_view(key))),
    {
        let ghost cs = encrypted_all(views(v@), key_view(key));
        let mut i: usize = 0;
        assert(cs.subrange(0, 0) =~= Seq::<CredentialView>::empty());
        while i < v.len()
            invariant
                i <= v.len(),
                self.wf(),
                self@.access_check == old(self)@.access_check,
                cs == encrypted_all(views(v@), key_view(key)),
                cs.len() == v.len(),
                self@.records == upsert_all(old(self)@.records, cs.subrange(0, i as int)),
            decreases v.len() - i,
        {
            let mut record = v[i].clone();
            match key {
                Some(k) => record.encrypt_password(k),
                None => {},
            }
            assert(record@ == cs[i as int]);
            self.insert_password(record);
            assert(cs.subrange(0, i + 1).drop_last() =~= cs.subrange(0, i as int));
            i = i + 1;
        }
        assert(cs.subrange(0, cs.len() as int) =~= cs);
    }
}

/// `passwords`, in order, each with its password decrypted under `key`; `BadDecryption`
/// when one of them does not decrypt.
pub fn decrypt_passwords(passwords: &Vec<Password>, key: &str) -> (r: Result<Vec<Password>, Error>)
    ensures
        match all_decrypted(views(passwords@), key@) {
            Some(cs) => r matches Ok(v) && views(v@) == cs,
            None => r == Err::<Vec<Password>, Error>(Error::BadDecryption),
        },
{
    let ghost s = views(passwords@);
    let mut out: Vec<Password> = Vec::new();
    let mut i: usize = 0;
    assert(s.subrange(0, 0) =~= Seq::<CredentialView>::empty());
    assert(views(out@) =~= Seq::<CredentialView>::empty());
    while i < passwords.len()
        invariant
            i <= passwords.len(),
            s == views(passwords@),
            all_decrypted(s.subrange(0, i as int), key@) == Some(views(out@)),
        decreases passwords.len() - i,
    {
        assert(s.subrange(0, i + 1).drop_last() =~= s.subrange(0, i as int));
        let mut record = passwords[i].clone();
        match record.decrypt_password(key) {
            Ok(_) => {
                let ghost before = out@;
                out.push(record);
                assert(views(out@) =~= views(before).push(record@));
            },
            Err(e) => {
                proof {
                    lemma_all_decrypted_none(s, i + 1, key@);
                }
                return Err(e);
            },
        }
        i = i + 1;
    }
    assert(s.subrange(0, s.len() as int) =~= s);
    Ok(out)
}

impl Password {
    /// The credential stored for `place`; `NoCredential` when there is none.
    pub fn from(place: &str, vault: &PasswordManager) -> (r: Result<Password, Error>)
        ensures
            exact_matches(vault@.records, place@).len() == 0 ==> (r matches Err(e)
                && e matches Error::NoCredential(p) && p@ == place@),
            exact_matches(vault@.records, place@).len() > 0 ==> (r matches Ok(c) && c@ == exact_matches(
                vault@.records,
                place@,
            )[0]),
    {
        let found = vault.get_password(place);
        if found.len() == 0 {
            Err(Error::NoCredential(place.to_owned()))
        } else {
            assert(views(found@)[0] == found@[0]@);
            Ok(found[0].clone())
        }
    }
}

proof fn lemma_no_match(u: Seq<CredentialView>, p: Seq<char>)
    requires
        forall|j: int| 0 <= j < u.len() ==> #[trigger] u[j].place != p,
    ensures
        exact_matches(u, p) == Seq::<CredentialView>::empty(),
    decreases u.len(),
{
    reveal(Seq::filter);
    if u.len() > 0 {
        let d = u.drop_last();
        assert(forall|j: int| 0 <= j < d.len() ==> d[j] == u[j]);
        lemma_no_match(d, p);
    }
}

proof fn lemma_single_match(u: Seq<CredentialView>, i: int)
    requires
        places_unique(u),
        0 <= i < u.len(),
    ensures
        exact_matches(u, u[i].place) == seq![u[i]],
    decreases u.len(),
{
    reveal(Seq::filter);
    let p = u[i].place;
    let d = u.drop_last();
    assert(forall|j: int| 0 <= j < d.len() ==> d[j] == u[j]);
    if i == u.len() - 1 {
        assert forall|j: int| 0 <= j < d.len() implies #[trigger] d[j].place != p by {
            assert(u[j].place != u[i].place);
        }
        lemma_no_match(d, p);
        assert(exact_matches(u, p) =~= seq![u[i]]);
    } else {
        assert(places_unique(d));
        assert(d[i] == u[i]);
        lemma_single_match(d, i);
        assert(u.last().place != p);
    }
}

/// Storing two credentials with the same place, one after the other, leaves exactly
/// one credential under that place: the second, with all of its values.
pub proof fn lemma_upsert_same_place(s: Seq<CredentialView>, a: CredentialView, b: CredentialView)
    requires
        places_unique(s),
        a.place == b.place,
    ensures
        places_unique(upsert(upsert(s, a), b)),
        exact_matches(upsert(upsert(s, a), b), a.place) == seq![b],
{
    lemma_upsert_unique(s, a);
    lemma_place_index(s, a.place);
    let t = upsert(s, a);
    let i = match place_index(s, a.place) {
        Some(k) => k,
        None => s.len() as int,
    };
    assert(t[i] == a);
    lemma_place_index_unique(t, i);
    lemma_upsert_unique(t, b);
    let u = upsert(t, b);
    assert(u == t.update(i, b));
    lemma_single_match(u, i);
}

/// Once the vault holds the hash that initialization stored for `p`, `p` verifies;
/// before initialization, verification reports `MissingVault`.
pub proof fn lemma_key_verification(vault: VaultView, p: Seq<char>)
    requires
        vault.access_check matches Some(h) && bcrypt_verdict(p, h) == Some(true),
    ensures
        verify_outcome(vault.access_check, p) == Ok::<bool, Error>(true),
        verify_outcome(None, p) == Err::<bool, Error>(Error::MissingVault),
{
}

/// A passphrase that bcrypt does not accept against the stored hash verifies as
/// `Ok(false)`. bcrypt reads only the first 72 bytes of a passphrase, so two that share
/// them are both accepted.
pub proof fn lemma_rejected_passphrase(vault: VaultView, p2: Seq<char>)
    requires
        vault.access_check matches Some(h) && bcrypt_verdict(p2, h) == Some(false),
    ensures
        verify_outcome(vault.access_check, p2) == Ok::<bool, Error>(false),
{
}

/// The passphrase given, as a value.
pub open spec fn key_view(key: Option<&str>) -> Option<Seq<char>> {
    match key {
        Some(k) => Some(k@),
        None => None,
    }
}

/// `cs`, each encrypted under `key` when one is given.
pub open spec fn encrypted_all(cs: Seq<CredentialView>, key: Option<Seq<char>>) -> Seq<CredentialView> {
    match key {
        Some(k) => cs.map_values(|c: CredentialView| encrypted_view(c, k)),
        None => cs,
    }
}

/// The credential that an edit writes: `c` with the fields given replaced, its
/// password encrypted under `key` when `encrypt` holds and plaintext otherwise.
pub open spec fn edited(
    c: CredentialView,
    new_place: Option<String>,
    new_username: Option<String>,
    new_password: Option<String>,
    encrypt: bool,
    key: Seq<char>,
) -> CredentialView {
    let plain = CredentialView {
        place: match new_place {
            Some(p) => p@,
            None => c.place,
        },
        username: match new_username {
            Some(u) => u@,
            None => c.username,
        },
        password: match new_password {
            Some(w) => w@,
            None => c.password,
        },
        encrypted: false,
    };
    if encrypt {
        encrypted_view(plain, key)
    } else {
        plain
    }
}

/// The credentials after an edit of the one at `place` writes `e`: in place when
/// the place is kept, else the old one is removed and `e` is stored under its place.
pub open spec fn edited_records(s: Seq<CredentialView>, place: Seq<char>, e: CredentialView) -> Seq<
    CredentialView,
> {
    if e.place == place {
        upsert(s, e)
    } else {
        upsert(without_place(s, place), e)
    }
}

proof fn lemma_all_decrypted_none(s: Seq<CredentialView>, n: int, key: Seq<char>)
    requires
        0 <= n <= s.len(),
        all_decrypted(s.subrange(0, n), key) is None,
    ensures
        all_decrypted(s, key) is None,
    decreases s.len(),
{
    if n == s.len() {
        assert(s.subrange(0, n) =~= s);
    } else {
        assert(s.drop_last().subrange(0, n) =~= s.subrange(0, n));
        lemma_all_decrypted_none(s.drop_last(), n, key);
    }
}

proof fn lemma_place_index_extends(s: Seq<CredentialView>, n: int, place: Seq<char>)
    requires
        0 <= n <= s.len(),
        place_index(s.subrange(0, n), place) is Some,
    ensures
        place_index(s, place) == place_index(s.subrange(0, n), place),
    decreases s.len(),
{
    if n == s.len() {
        assert(s.subrange(0, n) =~= s);
    } else {
        assert(s.drop_last().subrange(0, n) =~= s.subrange(0, n));
        lemma_place_index_extends(s.drop_last(), n, place);
    }
}

} // verus!
