//! A verified codec for the Bencode format: length-prefixed byte strings,
//! signed 64-bit integers, ordered lists, and dictionaries that iterate in
//! ascending byte-lexicographic key order.
//!
//! `Bencode::parse` turns a byte buffer into a [`model::Bencode`] value and
//! `Bencode::serialize` turns a value back into its canonical bytes. Both
//! are specified exactly: the decoder against the functional parser in
//! [`spec_dec`], the encoder against the encoding function in [`encode`],
//! and [`laws`] proves that decoding inverts encoding on well-formed values.

pub mod decode;
pub mod digits;
pub mod encode;
pub mod laws;
pub mod model;
pub mod spec_dec;
pub mod text;

pub use decode::Parser;
pub use model::dict_insert;
pub use model::key_eq;
pub use model::key_lt;
pub use model::Bencode;
pub use model::BencodeError;
