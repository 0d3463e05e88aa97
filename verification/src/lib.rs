//! Lookup engine for the QQWry-style packed IPv4 geolocation database.
//!
//! The database file holds an 8-byte header, a sorted fixed-stride index
//! segment, and variable-length records with redirected country/area text in
//! a legacy codepage.  This crate decodes that format from a byte buffer:
//! the binary-search locator over the index, the record resolver that follows
//! the redirect modes, the text decoding step, and the computation that turns
//! a downloaded archive and key resource into fresh database bytes.

use vstd::prelude::*;

pub mod bytes;
pub mod codec;
pub mod ipv4;
pub mod database;
pub mod install;

verus! {

/// Failure of a lookup against the database bytes.
#[derive(Clone, Copy, Debug, PartialEq, Eq, Structural)]
pub enum IpdbError {
    /// A field lies beyond the end of the database bytes, or a string is
    /// missing its terminator (the short-read condition).
    Io,
    /// A country or area string is not valid text in the database codepage.
    Decode,
    /// The header or the index segment is malformed.
    Format,
}

/// Failure while turning the downloaded material into database bytes.
#[derive(Clone, Copy, Debug, PartialEq, Eq, Structural)]
pub enum InstallError {
    /// The key resource is too short to hold the seed field.
    ShortKey,
    /// The archive is shorter than its encrypted prefix.
    ShortArchive,
    /// The decrypted archive is not a valid compressed stream.
    Inflate,
}

} // verus!
