//! Core of a local, single-user credential vault: a passphrase check kept as a
//! salted slow hash, symmetric encryption of stored passwords, a password
//! generator with per-class constraints, an in-memory credential store with
//! one record per place, and a delimited text codec for backups and dumps.

pub mod error;
pub mod cipher;
pub mod text;
pub mod credential;
pub mod codec;
pub mod store;
pub mod generator;
pub mod cli;
