//! Content-addressed objects and the literal contexts that carry them.
//!
//! An object is identified by the digest of its canonical form, its
//! [`literal::Literal`]. A [`context::Context`] gathers literals by digest,
//! merges with other contexts ([`merge`]), and reports which dependencies
//! are still absent ([`missing`]). [`hashed_object`] holds what an object
//! carries while it is in memory, and [`validation`] what judging it comes
//! to. [`wordcode`] writes hexadecimal strings, such as digests, as words of
//! a dictionary, which [`word_index`] finds again.

pub mod context;
pub mod hashed_object;
pub mod hashing;
pub mod hex;
pub mod literal;
pub mod merge;
pub mod missing;
pub mod validation;
pub mod word_index;
pub mod wordcode;
