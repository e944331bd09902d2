//! ASN.1 binary encoder and decoder for the Distinguished Encoding Rules (DER).
//!
//! The reader hands out typed, validated views into the caller's bytes and the
//! writer serialises into a buffer that the caller supplies; nothing is copied
//! or reallocated behind the caller's back.
//!
//! Every executable function carries a contract over a mathematical model of
//! the bytes (`Seq<u8>`), and the codecs come with round-trip laws.

pub mod der;
pub mod header;
pub mod intenc;
pub mod objects;

pub use objects::{BitString, Enumerated, Integer, OIDComponent, OIDComponents, OID};
