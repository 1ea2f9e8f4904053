//! Selectively rewrites German special characters (umlauts, eszett) inside a
//! text, while leaving caller-designated regions untouched.
//!
//! The crate has three parts:
//! - [`scope`]: partitions a text into alternating in-scope and out-of-scope
//!   regions from a set of caller-supplied ranges, supports inversion, and
//!   guarantees byte-exact reconstruction;
//! - [`german`]: the per-word machine that classifies a word's casing and
//!   rewrites native umlaut/eszett glyphs to their ASCII digraphs (or back);
//! - [`transform`]: the facade that validates ranges, builds scopes, runs the
//!   machine over in-scope regions only, and concatenates the result.

pub mod german;
pub mod scope;
pub mod transform;
