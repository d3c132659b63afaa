//! Duplicate-file detection engine.
//!
//! Files are grouped by exact byte length, ambiguous groups are
//! disambiguated by a content digest, and the resulting bins can be
//! reconciled against an exclusion set built from a negative directory
//! tree. The engine itself works on plain values (paths as strings,
//! sizes, digests); enumerating a filesystem and reading file bytes are
//! left to the caller, which feeds the results in.

pub mod engine;
pub mod exclusion;
pub mod filter;
pub mod index;
pub mod hasher;
pub mod hex;
pub mod order;
