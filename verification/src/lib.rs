//! A verified codec for the Bethesda BSA archive container format.
//!
//! An archive bundles many named files into one sequential byte stream:
//! a fixed 12-byte header, a directory of per-entry size/offset words,
//! a block of null-terminated entry names, a legacy integrity-hash table,
//! and the concatenated file payloads.  This crate parses, queries and
//! builds such archives entirely in memory; reading and writing the bytes
//! from disk is left to the caller.
//!
//! The codec is specified against a byte-exact model of the on-disk
//! layout: [`format::spec_parse`] says which images decode and to which
//! entries, the `format::spec_encode` family says which image a list of
//! source files produces, and [`format::lemma_round_trip`] proves that
//! encoding then decoding gives back every source byte-for-byte.

pub mod bsa;
pub mod error;
pub mod format;
pub mod hash;
pub mod names;

pub use bsa::BSAFile;
pub use bsa::FileList;
pub use bsa::FileStruct;
pub use bsa::SourceFile;
pub use error::BsaError;
pub use hash::calculate_hash;
