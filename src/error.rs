use vstd::prelude::*;

verus! {

/// The columns of a dump or a backup.
#[derive(Debug, Clone, Copy, PartialEq, Eq)]
pub enum Column {
    Place,
    Username,
    Password,
    Encrypted,
}

/// The kinds of failure that the vault's core operations report.
#[derive(Debug, Clone, PartialEq, Eq)]
pub enum Error {
    /// The `encrypted` column of a dump row is neither `0` nor `1`.
    ParsingError,
    /// A data row has no field at the index resolved for the named column;
    /// the line is counted from 1, the header being line 1.
    MissingField(Column, usize),
    /// The named column cannot be found among the headers.
    NoHeader(String),
    /// The header row has fewer columns than the format needs.
    BadHeaders,
    /// An answer was required and none was given.
    EmptyInput,
    /// An answer was given that is not one of the accepted ones.
    BadInput(String),
    /// The vault already holds an access-check hash.
    AlreadyInitialized,
    /// The vault holds no access-check hash yet.
    MissingVault,
    /// The stored access-check hash could not be checked against the passphrase.
    VerificationFailed,
    /// The passphrase could not be hashed.
    HashError,
    /// A ciphertext is malformed or does not decrypt under the given passphrase.
    BadDecryption,
    /// No credential is stored under the given place.
    NoCredential(String),
    /// The storage engine behind the vault failed; the text describes the cause.
    StoreError(String),
    /// The generator's options leave no character to draw from.
    EmptyAlphabet,
    /// The generator's options require more character classes than the length holds.
    Unsatisfiable,
    /// The generator gave up before drawing a password that meets its options.
    GenerationFailed,
}

} // verus!
