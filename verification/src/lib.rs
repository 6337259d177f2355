//! A boot-loader configuration store and repository-resolution core.
//!
//! `document` holds an ordered key-value boot-configuration document with
//! byte-exact parsing and serialization; `resolve` merges, deduplicates and
//! ranks repository candidates reported by discovery backends.

pub mod document;
pub mod resolve;
