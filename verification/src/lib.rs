//! Core of a single-round lattice-based private information retrieval (PIR)
//! exchange: parameter derivation and database layout, database ingestion,
//! little-endian byte/word marshalling, and the scalar reference semantics of
//! the server's homomorphic batched dot-product kernel.
//!
//! The lattice encryption primitives themselves (key generation, encryption
//! and decryption of polynomials, ciphertext packing) are external
//! collaborators and are out of scope here; this crate covers the modular
//! arithmetic, CRT composition, shape and validation logic that the server
//! side runs against every query.

pub mod arith;
pub mod codec;
pub mod db;
pub mod kernel;
pub mod params;
pub mod server;
