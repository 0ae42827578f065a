//! An authenticated key-value store summarised by a single field-element root,
//! with witness construction and hex/JSON proof-envelope encoding, decoding and
//! verification built on SHA-256 digests reduced into the BLS12-381 scalar field.

pub mod hashes;
pub mod hex_codec;
pub mod text;
pub mod tree;
pub mod envelope;
pub mod api;
