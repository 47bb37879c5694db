//! A verified streaming SHA-1 engine.
//!
//! SHA-1 is cryptographically broken; this crate exists for compatibility
//! with formats that still require it, not for security.
//!
//! The engine absorbs an arbitrary byte stream in chunks and produces a
//! 20-byte digest. Every operation is specified against the mathematical
//! definition of the algorithm in [`model`], and the implementation is
//! proved to meet it.

pub mod engine;
pub mod model;

pub use engine::Sha1;
